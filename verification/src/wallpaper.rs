//! The ordered set of wallpaper names.
//!
//! `WallpaperData` is the single source of truth for which wallpapers exist.
//! It keeps the names strictly sorted in the lexicographic order of
//! `crate::order`, so the set holds no duplicates and adjacency in the sorted
//! order is well defined. Mutations arrive one at a time from the watch
//! reaction path; readers work on independent snapshots from `get_all`.
use vstd::prelude::*;

use crate::cache::{pairs_of, touching_keys, WallpaperCache};
use crate::order::{
    chars_lt, lemma_chars_lt_asymmetric, lemma_chars_lt_irreflexive, lemma_chars_lt_transitive,
    lemma_chars_lt_trichotomy, str_lt, strictly_sorted,
};

verus! {

/// An ordered, deduplicated collection of wallpaper names.
pub struct WallpaperData {
    wallpapers: Vec<String>,
}

impl View for WallpaperData {
    type V = Seq<Seq<char>>;

    closed spec fn view(&self) -> Seq<Seq<char>> {
        self.wallpapers@.map_values(|s: String| s@)
    }
}

impl WallpaperData {
    /// The set is well formed when its names are strictly sorted, which also
    /// rules out duplicates.
    pub open spec fn wf(&self) -> bool {
        strictly_sorted(self@)
    }

    /// An empty set.
    pub fn new() -> (r: Self)
        ensures
            r.wf(),
            r@ =~= Seq::<Seq<char>>::empty(),
    {
        Self { wallpapers: Vec::new() }
    }

    /// Adds a name, keeping the sorted order; a name already present is left
    /// in place.
    pub fn insert(&mut self, value: String)
        requires
            old(self).wf(),
        ensures
            final(self).wf(),
            forall|n: Seq<char>|
                final(self)@.contains(n) <==> old(self)@.contains(n) || n == value@,
            old(self)@.contains(value@) ==> final(self)@ =~= old(self)@,
            !old(self)@.contains(value@) ==> final(self)@.len() == old(self)@.len() + 1,
    {
        let ghost prev = self@;
        let mut i: usize = 0;
        loop
            invariant
                self@ == prev,
                strictly_sorted(prev),
                i <= self.wallpapers.len(),
                forall|k: int| 0 <= k < i ==> chars_lt(prev[k], value@),
            ensures
                self@ == prev,
                i <= self.wallpapers.len(),
                forall|k: int| 0 <= k < i ==> chars_lt(prev[k], value@),
                i < self.wallpapers.len() ==> !chars_lt(prev[i as int], value@),
            decreases self.wallpapers.len() - i,
        {
            if i == self.wallpapers.len() {
                break;
            }
            if !str_lt(self.wallpapers[i].as_str(), value.as_str()) {
                break;
            }
            i = i + 1;
        }
        if i < self.wallpapers.len() && self.wallpapers[i] == value {
            proof {
                assert(prev.contains(value@)) by {
                    assert(prev[i as int] == value@);
                }
            }
            return;
        }
        proof {
            if i < prev.len() {
                lemma_chars_lt_trichotomy(prev[i as int], value@);
                assert(chars_lt(value@, prev[i as int]));
            }
            if prev.contains(value@) {
                let k = choose|k: int| 0 <= k < prev.len() && prev[k] == value@;
                if k < i {
                    lemma_chars_lt_irreflexive(value@);
                } else {
                    assert(i < prev.len());
                    if k == i {
                        lemma_chars_lt_irreflexive(value@);
                    } else {
                        assert(chars_lt(prev[i as int], prev[k]));
                        lemma_chars_lt_asymmetric(value@, prev[i as int]);
                    }
                }
            }
        }
        self.wallpapers.insert(i, value);
        proof {
            let cur = self@;
            assert(cur.len() == prev.len() + 1);
            assert(forall|k: int| 0 <= k < i ==> cur[k] == prev[k]);
            assert(cur[i as int] == value@);
            assert(forall|k: int| i < k < cur.len() ==> cur[k] == prev[k - 1]);
            assert forall|p: int, q: int| 0 <= p < q < cur.len() implies chars_lt(
                cur[p],
                cur[q],
            ) by {
                if q < i {
                } else if q == i {
                    assert(chars_lt(prev[p], value@));
                } else if p == i {
                    if q == i + 1 {
                        assert(chars_lt(value@, prev[q - 1]));
                    } else {
                        assert(chars_lt(prev[i as int], prev[q - 1]));
                        lemma_chars_lt_transitive(value@, prev[i as int], prev[q - 1]);
                    }
                } else if p < i {
                    assert(chars_lt(prev[p], prev[q - 1]));
                } else {
                    assert(chars_lt(prev[p - 1], prev[q - 1]));
                }
            }
            assert forall|n: Seq<char>| cur.contains(n) implies prev.contains(n) || n
                == value@ by {
                let k = choose|k: int| 0 <= k < cur.len() && cur[k] == n;
                if k < i {
                    assert(prev[k] == n);
                } else if k > i {
                    assert(prev[k - 1] == n);
                }
            }
            assert forall|n: Seq<char>| prev.contains(n) || n == value@ implies cur.contains(
                n,
            ) by {
                if prev.contains(n) {
                    let k = choose|k: int| 0 <= k < prev.len() && prev[k] == n;
                    if k < i {
                        assert(cur[k] == n);
                    } else {
                        assert(cur[k + 1] == n);
                    }
                } else {
                    assert(cur[i as int] == n);
                }
            }
        }
    }

    /// Takes a name out; a name not present leaves the set unchanged.
    pub fn remove(&mut self, value: &String)
        requires
            old(self).wf(),
        ensures
            final(self).wf(),
            forall|n: Seq<char>|
                final(self)@.contains(n) <==> old(self)@.contains(n) && n != value@,
            !old(self)@.contains(value@) ==> final(self)@ =~= old(self)@,
            old(self)@.contains(value@) ==> final(self)@.len() + 1 == old(self)@.len(),
    {
        let ghost prev = self@;
        let mut i: usize = 0;
        loop
            invariant
                self@ == prev,
                strictly_sorted(prev),
                i <= self.wallpapers.len(),
                forall|k: int| 0 <= k < i ==> prev[k] != value@,
            ensures
                self@ == prev,
                i < self.wallpapers.len(),
                prev[i as int] == value@,
            decreases self.wallpapers.len() - i,
        {
            if i == self.wallpapers.len() {
                proof {
                    assert forall|n: Seq<char>| prev.contains(n) implies n != value@ by {
                        let k = choose|k: int| 0 <= k < prev.len() && prev[k] == n;
                    }
                }
                return;
            }
            if self.wallpapers[i] == *value {
                proof {
                    assert(prev[i as int] == value@);
                }
                break;
            }
            i = i + 1;
        }
        self.wallpapers.remove(i);
        proof {
            let cur = self@;
            assert(cur.len() + 1 == prev.len());
            assert(forall|k: int| 0 <= k < i ==> cur[k] == prev[k]);
            assert(forall|k: int| i <= k < cur.len() ==> cur[k] == prev[k + 1]);
            assert forall|p: int, q: int| 0 <= p < q < cur.len() implies chars_lt(
                cur[p],
                cur[q],
            ) by {
                if q < i {
                } else if p < i {
                    assert(chars_lt(prev[p], prev[q + 1]));
                } else {
                    assert(chars_lt(prev[p + 1], prev[q + 1]));
                }
            }
            assert(prev.contains(value@)) by {
                assert(prev[i as int] == value@);
            }
            assert forall|n: Seq<char>| cur.contains(n) implies prev.contains(n) && n
                != value@ by {
                let k = choose|k: int| 0 <= k < cur.len() && cur[k] == n;
                if k < i {
                    assert(prev[k] == n);
                    assert(chars_lt(prev[k], prev[i as int]));
                    lemma_chars_lt_asymmetric(prev[k], prev[i as int]);
                } else {
                    assert(prev[k + 1] == n);
                    assert(chars_lt(prev[i as int], prev[k + 1]));
                    lemma_chars_lt_asymmetric(prev[i as int], prev[k + 1]);
                }
            }
            assert forall|n: Seq<char>| prev.contains(n) && n != value@ implies cur.contains(
                n,
            ) by {
                let k = choose|k: int| 0 <= k < prev.len() && prev[k] == n;
                if k < i {
                    assert(cur[k] == n);
                } else if k > i {
                    assert(cur[k - 1] == n);
                }
            }
        }
    }

    /// An independent snapshot of the names, in sorted order.
    pub fn get_all(&self) -> (r: Vec<String>)
        ensures
            r@.map_values(|s: String| s@) =~= self@,
            r@.len() == self@.len(),
            forall|i: int| 0 <= i < r@.len() ==> r@[i]@ == self@[i],
    {
        let mut out: Vec<String> = Vec::new();
        let mut i: usize = 0;
        while i < self.wallpapers.len()
            invariant
                i <= self.wallpapers.len(),
                out@.len() == i,
                forall|k: int| 0 <= k < i ==> out@[k] == self.wallpapers@[k],
            decreases self.wallpapers.len() - i,
        {
            out.push(self.wallpapers[i].clone());
            i = i + 1;
        }
        proof {
            assert forall|k: int| 0 <= k < out@.len() implies out@.map_values(|s: String| s@)[k]
                == self@[k] by {
                assert(out@[k] == self.wallpapers@[k]);
            }
        }
        out
    }

    /// How many wallpapers the set holds.
    pub fn len(&self) -> (r: usize)
        ensures
            r == self@.len(),
    {
        self.wallpapers.len()
    }
}

/// One filesystem change in the wallpaper directory, as the watch loop hands
/// it over. Every other kind of change is the explicit no-op variant.
pub enum WatchEvent {
    /// A file appeared under this name.
    Created(String),
    /// The file of this name is gone.
    Removed(String),
    /// The file changed its name from the first to the second.
    Renamed(String, String),
    /// A change of a kind the reaction ignores.
    Other,
}

/// Reacts to one watch event: a created file joins the set, a removed file
/// leaves it, a renamed file leaves under its old name and joins under the
/// new one. The returned keys are the cache entries to invalidate: those of
/// every pair of the pre-event snapshot that the removed or renamed name was
/// a member of.
pub fn handle_event(wallpapers: &mut WallpaperData, event: WatchEvent) -> (r: Vec<String>)
    requires
        old(wallpapers).wf(),
    ensures
        final(wallpapers).wf(),
        event matches WatchEvent::Created(name) ==> (forall|n: Seq<char>|
            final(wallpapers)@.contains(n) <==> old(wallpapers)@.contains(n) || n == name@),
        event matches WatchEvent::Created(name) ==> r@.len() == 0,
        event matches WatchEvent::Removed(name) ==> (forall|n: Seq<char>|
            final(wallpapers)@.contains(n) <==> old(wallpapers)@.contains(n) && n != name@),
        event matches WatchEvent::Removed(name) ==> r@.map_values(|s: String| s@)
            =~= touching_keys(pairs_of(old(wallpapers)@), name@),
        event matches WatchEvent::Renamed(old_name, new_name) ==> (forall|n: Seq<char>|
            final(wallpapers)@.contains(n) <==> (old(wallpapers)@.contains(n) && n != old_name@)
                || n == new_name@),
        event matches WatchEvent::Renamed(old_name, new_name) ==> r@.map_values(|s: String| s@)
            =~= touching_keys(pairs_of(old(wallpapers)@), old_name@),
        event is Other ==> final(wallpapers)@ =~= old(wallpapers)@ && r@.len() == 0,
{
    match event {
        WatchEvent::Created(name) => {
            wallpapers.insert(name);
            Vec::new()
        },
        WatchEvent::Removed(name) => {
            let pairs = WallpaperCache::new(wallpapers);
            let keys = pairs.keys_touching(&name);
            wallpapers.remove(&name);
            keys
        },
        WatchEvent::Renamed(old_name, new_name) => {
            let pairs = WallpaperCache::new(wallpapers);
            let keys = pairs.keys_touching(&old_name);
            wallpapers.remove(&old_name);
            wallpapers.insert(new_name);
            keys
        },
        WatchEvent::Other => Vec::new(),
    }
}

} // verus!
