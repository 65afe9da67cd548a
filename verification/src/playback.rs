//! The playback scheduler.
//!
//! On each timer tick the scheduler picks the pair at the running index
//! modulo the pair count, resolves its cache entry, and either hands the
//! entry's folder name out and advances, or skips the tick without advancing
//! when the entry is missing or no pairs exist. One tick never errors the
//! loop: a missing entry simply waits for generation to catch up.
use vstd::prelude::*;

use crate::cache::{key_of, CacheStore, WallpaperCache};

verus! {

/// The tick-driven cursor over the pair list.
pub struct PlaybackScheduler {
    index: usize,
}

impl View for PlaybackScheduler {
    type V = int;

    closed spec fn view(&self) -> int {
        self.index as int
    }
}

impl PlaybackScheduler {
    /// A scheduler at the first pair.
    pub fn new() -> (r: Self)
        ensures
            r@ == 0,
    {
        Self { index: 0 }
    }

    /// One timer tick: with no pairs, or with the current pair's cache entry
    /// missing, does nothing; otherwise returns the entry's folder name and
    /// moves to the next pair.
    pub fn tick(&mut self, cache: &WallpaperCache, store: &CacheStore) -> (r: Option<String>)
        ensures
            final(self)@ >= 0,
            cache@.len() == 0 ==> r is None && final(self)@ == old(self)@,
            cache@.len() > 0 && !store@.contains(
                key_of(
                    cache@[old(self)@ % cache@.len() as int].0,
                    cache@[old(self)@ % cache@.len() as int].1,
                ),
            ) ==> r is None && final(self)@ == old(self)@,
            cache@.len() > 0 && store@.contains(
                key_of(
                    cache@[old(self)@ % cache@.len() as int].0,
                    cache@[old(self)@ % cache@.len() as int].1,
                ),
            ) ==> (r matches Some(k) && k@ == key_of(
                cache@[old(self)@ % cache@.len() as int].0,
                cache@[old(self)@ % cache@.len() as int].1,
            ) && final(self)@ == (old(self)@ % cache@.len() as int) + 1),
    {
        let count = cache.len();
        if count == 0 {
            return None;
        }
        let pos = self.index % count;
        let key = cache.key_at(pos);
        if !store.has(&key) {
            return None;
        }
        self.index = pos + 1;
        Some(key)
    }
}

} // verus!
