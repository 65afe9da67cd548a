//! Pair indexing and cache keying.
//!
//! Adjacent wallpapers in the sorted set form pairs; each pair owns a stable
//! cache key `stem(first) + "_" + stem(second)` used as the name of the folder
//! that holds the pair's generated transition frames. `WallpaperCache` is the
//! ordered list of pairs derived from one snapshot of the set; `CacheStore`
//! models which pair keys currently have a cache folder on disk.
use vstd::prelude::*;
use vstd::string::StrSliceExecFns;
use vstd::string::StringExecFns;

use crate::wallpaper::WallpaperData;

verus! {

/// Where the stem of a file name ends, scanning for the last `.` strictly
/// after the first character: the index of that dot, or the full length when
/// no such dot exists.
pub open spec fn stem_end(s: Seq<char>, i: int) -> int
    decreases i,
{
    if i <= 0 {
        s.len() as int
    } else if s[i] == '.' {
        i
    } else {
        stem_end(s, i - 1)
    }
}

/// The file stem of an image name: everything before the last `.`, with a
/// name that has no dot past its first character (including a bare leading-dot
/// name) kept whole.
pub open spec fn stem_of(s: Seq<char>) -> Seq<char> {
    s.take(stem_end(s, s.len() - 1))
}

/// The cache key of a pair of names: the two stems joined by an underscore.
pub open spec fn key_of(a: Seq<char>, b: Seq<char>) -> Seq<char> {
    stem_of(a) + seq!['_'] + stem_of(b)
}

/// The adjacent pairs of an ordered snapshot: element `i` beside element
/// `i + 1`, so `n` names yield `n - 1` pairs and fewer than two names yield
/// none.
pub open spec fn pairs_of(s: Seq<Seq<char>>) -> Seq<(Seq<char>, Seq<char>)> {
    Seq::new(if s.len() == 0 { 0 } else { (s.len() - 1) as nat }, |i: int| (s[i], s[i + 1]))
}

/// No character of a sequence is an underscore.
pub open spec fn underscore_free(s: Seq<char>) -> bool {
    forall|i: int| 0 <= i < s.len() ==> s[i] != '_'
}

/// Joining two underscore-free stems with an underscore is injective: equal
/// keys force equal parts, because the first underscore of the key marks
/// where the first stem ends.
pub proof fn lemma_key_parts(x1: Seq<char>, y1: Seq<char>, x2: Seq<char>, y2: Seq<char>)
    requires
        underscore_free(x1),
        underscore_free(x2),
        x1 + seq!['_'] + y1 =~= x2 + seq!['_'] + y2,
    ensures
        x1 =~= x2,
        y1 =~= y2,
{
    let k1 = x1 + seq!['_'] + y1;
    let k2 = x2 + seq!['_'] + y2;
    assert(k1[x1.len() as int] == '_');
    assert(k2[x2.len() as int] == '_');
    if x1.len() < x2.len() {
        assert(k2[x1.len() as int] == x2[x1.len() as int]);
        assert(x2[x1.len() as int] != '_');
        assert(false);
    }
    if x2.len() < x1.len() {
        assert(k1[x2.len() as int] == x1[x2.len() as int]);
        assert(x1[x2.len() as int] != '_');
        assert(false);
    }
    assert(x1.len() == x2.len());
    assert forall|i: int| 0 <= i < x1.len() implies x1[i] == x2[i] by {
        assert(k1[i] == x1[i]);
        assert(k2[i] == x2[i]);
    }
    assert(k1.len() == x1.len() + 1 + y1.len());
    assert(k2.len() == x2.len() + 1 + y2.len());
    assert(k1.len() == k2.len());
    assert(y1.len() == y2.len());
    assert forall|i: int| 0 <= i < y1.len() implies y1[i] == y2[i] by {
        assert(k1[x1.len() + 1 + i] == y1[i]);
        assert(k2[x2.len() + 1 + i] == y2[i]);
    }
}

/// Distinct adjacent pairs of one snapshot get distinct cache keys, provided
/// the names' stems are pairwise distinct and hold no underscore. (Stems that
/// collide, or stems with underscores of their own, can make two pairs share
/// a key; the snapshot's names are expected to keep stems apart.)
pub proof fn lemma_pair_keys_distinct(s: Seq<Seq<char>>, i: int, j: int)
    requires
        0 <= i < pairs_of(s).len(),
        0 <= j < pairs_of(s).len(),
        i != j,
        forall|p: int, q: int|
            0 <= p < q < s.len() ==> stem_of(#[trigger] s[p]) != stem_of(#[trigger] s[q]),
        forall|p: int| 0 <= p < s.len() ==> underscore_free(stem_of(#[trigger] s[p])),
    ensures
        key_of(pairs_of(s)[i].0, pairs_of(s)[i].1) != key_of(
            pairs_of(s)[j].0,
            pairs_of(s)[j].1,
        ),
{
    let ki = key_of(pairs_of(s)[i].0, pairs_of(s)[i].1);
    let kj = key_of(pairs_of(s)[j].0, pairs_of(s)[j].1);
    assert(pairs_of(s)[i].0 == s[i] && pairs_of(s)[i].1 == s[i + 1]);
    assert(pairs_of(s)[j].0 == s[j] && pairs_of(s)[j].1 == s[j + 1]);
    if ki == kj {
        lemma_key_parts(stem_of(s[i]), stem_of(s[i + 1]), stem_of(s[j]), stem_of(s[j + 1]));
        assert(stem_of(s[i]) == stem_of(s[j]));
        if i < j {
            assert(stem_of(s[i]) != stem_of(s[j]));
        } else {
            assert(stem_of(s[j]) != stem_of(s[i]));
        }
        assert(false);
    }
}

/// In a well-formed set's snapshot every pair is adjacent in sorted order:
/// its first member comes strictly before its second.
pub proof fn lemma_pairs_ordered(s: Seq<Seq<char>>)
    requires
        crate::order::strictly_sorted(s),
    ensures
        forall|i: int|
            0 <= i < pairs_of(s).len() ==> crate::order::chars_lt(
                (#[trigger] pairs_of(s)[i]).0,
                pairs_of(s)[i].1,
            ),
{
    assert forall|i: int| 0 <= i < pairs_of(s).len() implies crate::order::chars_lt(
        (#[trigger] pairs_of(s)[i]).0,
        pairs_of(s)[i].1,
    ) by {
        assert(pairs_of(s)[i].0 == s[i]);
        assert(pairs_of(s)[i].1 == s[i + 1]);
    }
}

/// A name no longer in the set is a member of no pair of the new snapshot,
/// so a later generation pass never takes up a pair containing a removed
/// image.
pub proof fn lemma_removed_image_out_of_pairs(s: Seq<Seq<char>>, name: Seq<char>)
    requires
        !s.contains(name),
    ensures
        forall|i: int|
            0 <= i < pairs_of(s).len() ==> (#[trigger] pairs_of(s)[i]).0 != name && pairs_of(
                s,
            )[i].1 != name,
{
    lemma_pairs_members(s);
}

/// What removing an image achieves, end to end: the name is gone from the
/// set, the invalidation list holds the key of every pair of the old
/// snapshot that the name was a member of, and no pair of the new snapshot —
/// so no later generation pass — has the removed image as a member.
pub proof fn lemma_removal_invalidates_and_excludes(
    old_set: Seq<Seq<char>>,
    new_set: Seq<Seq<char>>,
    name: Seq<char>,
    invalidated: Seq<Seq<char>>,
)
    requires
        forall|n: Seq<char>| new_set.contains(n) <==> old_set.contains(n) && n != name,
        invalidated =~= touching_keys(pairs_of(old_set), name),
    ensures
        !new_set.contains(name),
        forall|i: int|
            0 <= i < pairs_of(old_set).len() && ((#[trigger] pairs_of(old_set)[i]).0 == name
                || pairs_of(old_set)[i].1 == name) ==> invalidated.contains(
                key_of(pairs_of(old_set)[i].0, pairs_of(old_set)[i].1),
            ),
        forall|i: int|
            0 <= i < pairs_of(new_set).len() ==> (#[trigger] pairs_of(new_set)[i]).0 != name
                && pairs_of(new_set)[i].1 != name,
{
    lemma_touching_keys_characterized(pairs_of(old_set), name);
    lemma_removed_image_out_of_pairs(new_set, name);
}

/// Both members of every adjacent pair come from the snapshot.
pub proof fn lemma_pairs_members(s: Seq<Seq<char>>)
    ensures
        forall|i: int|
            0 <= i < pairs_of(s).len() ==> s.contains(#[trigger] pairs_of(s)[i].0) && s.contains(
                pairs_of(s)[i].1,
            ),
{
    assert forall|i: int| 0 <= i < pairs_of(s).len() implies s.contains(
        #[trigger] pairs_of(s)[i].0,
    ) && s.contains(pairs_of(s)[i].1) by {
        assert(pairs_of(s)[i].0 == s[i]);
        assert(pairs_of(s)[i].1 == s[i + 1]);
    }
}

/// Computes the file stem of an image name.
pub fn file_stem(name: &str) -> (r: String)
    ensures
        r@ == stem_of(name@),
{
    let n: usize = name.unicode_len();
    if n == 0 {
        proof {
            assert(name@.take(stem_end(name@, -1)) =~= name@);
        }
        return name.to_owned();
    }
    let mut j: usize = n - 1;
    loop
        invariant
            n == name@.len(),
            n >= 1,
            j <= n - 1,
            stem_end(name@, n - 1) == stem_end(name@, j as int),
        ensures
            n == name@.len(),
            j <= n - 1,
            j == 0 ==> stem_end(name@, n - 1) == n,
            j > 0 ==> name@[j as int] == '.' && stem_end(name@, n - 1) == j,
        decreases j,
    {
        if j == 0 {
            break;
        }
        if name.get_char(j) == '.' {
            break;
        }
        j = j - 1;
    }
    if j == 0 {
        proof {
            assert(name@.take(stem_end(name@, name@.len() - 1)) =~= name@);
        }
        name.to_owned()
    } else {
        let stem = name.substring_char(0, j);
        proof {
            assert(name@.subrange(0, j as int) =~= name@.take(j as int));
        }
        stem.to_owned()
    }
}

/// Builds the cache key of two adjacent image names.
pub fn pair_key(first: &str, second: &str) -> (r: String)
    ensures
        r@ == key_of(first@, second@),
{
    let mut key = file_stem(first);
    let underscore = "_";
    proof {
        reveal_strlit("_");
        assert(underscore@ =~= seq!['_']);
    }
    key.append(underscore);
    let second_stem = file_stem(second);
    key.append(second_stem.as_str());
    key
}

/// The ordered list of adjacent wallpaper pairs from one snapshot of the set.
pub struct WallpaperCache {
    wallpaper_pairs: Vec<(String, String)>,
}

impl View for WallpaperCache {
    type V = Seq<(Seq<char>, Seq<char>)>;

    closed spec fn view(&self) -> Seq<(Seq<char>, Seq<char>)> {
        self.wallpaper_pairs@.map_values(|p: (String, String)| (p.0@, p.1@))
    }
}

impl WallpaperCache {
    /// Derives the pairs of the current snapshot: every wallpaper beside its
    /// successor in sorted order, `n` wallpapers giving `n - 1` pairs and an
    /// empty or single-element set giving none.
    pub fn new(wallpapers: &WallpaperData) -> (r: Self)
        ensures
            r@ =~= pairs_of(wallpapers@),
            r@.len() == if wallpapers@.len() == 0 { 0int } else { wallpapers@.len() - 1 },
            forall|i: int|
                0 <= i < r@.len() ==> r@[i] == (wallpapers@[i], wallpapers@[i + 1]),
    {
        let list = wallpapers.get_all();
        let mut pairs: Vec<(String, String)> = Vec::new();
        if list.len() >= 2 {
            let mut i: usize = 0;
            while i < list.len() - 1
                invariant
                    list@.len() == wallpapers@.len(),
                    forall|k: int| 0 <= k < list@.len() ==> list@[k]@ == wallpapers@[k],
                    list.len() >= 2,
                    i <= list.len() - 1,
                    pairs@.len() == i,
                    forall|k: int|
                        0 <= k < i ==> (#[trigger] pairs@[k]).0@ == wallpapers@[k] && pairs@[k].1@
                            == wallpapers@[k + 1],
                decreases list.len() - i,
            {
                pairs.push((list[i].clone(), list[i + 1].clone()));
                i = i + 1;
            }
        }
        let r = Self { wallpaper_pairs: pairs };
        proof {
            assert forall|i: int| 0 <= i < r@.len() implies r@[i] == (
                wallpapers@[i],
                wallpapers@[i + 1],
            ) by {
                assert(r@[i] == (r.wallpaper_pairs@[i].0@, r.wallpaper_pairs@[i].1@));
            }
        }
        r
    }

    /// How many pairs the snapshot yields.
    pub fn len(&self) -> (r: usize)
        ensures
            r == self@.len(),
    {
        self.wallpaper_pairs.len()
    }

    /// The pairs themselves, in order.
    pub fn pairs(&self) -> (r: &Vec<(String, String)>)
        ensures
            r@.len() == self@.len(),
            forall|i: int|
                0 <= i < r@.len() ==> (#[trigger] r@[i]).0@ == self@[i].0 && r@[i].1@
                    == self@[i].1,
    {
        &self.wallpaper_pairs
    }

    /// The cache key of the pair at a position.
    pub fn key_at(&self, i: usize) -> (r: String)
        requires
            i < self@.len(),
        ensures
            r@ == key_of(self@[i as int].0, self@[i as int].1),
    {
        let p = &self.wallpaper_pairs[i];
        pair_key(p.0.as_str(), p.1.as_str())
    }

    /// The keys of the pairs that have a `name` as either member, in pair
    /// order: the entries to invalidate when `name` is removed or renamed.
    pub fn keys_touching(&self, name: &String) -> (r: Vec<String>)
        ensures
            r@.map_values(|s: String| s@) =~= touching_keys(self@, name@),
    {
        let pairs = &self.wallpaper_pairs;
        let mut out: Vec<String> = Vec::new();
        let mut i: usize = 0;
        while i < pairs.len()
            invariant
                i <= pairs.len(),
                self@.len() == pairs@.len(),
                forall|k: int|
                    0 <= k < pairs@.len() ==> self@[k] == ((#[trigger] pairs@[k]).0@,
                    pairs@[k].1@),
                out@.map_values(|s: String| s@) =~= touching_keys(self@.take(i as int), name@),
            decreases pairs.len() - i,
        {
            proof {
                assert(self@.take(i + 1).drop_last() =~= self@.take(i as int));
                assert(self@.take(i + 1).last() == self@[i as int]);
            }
            if pairs[i].0 == *name || pairs[i].1 == *name {
                let p = &pairs[i];
                out.push(pair_key(p.0.as_str(), p.1.as_str()));
            }
            i = i + 1;
        }
        proof {
            assert(self@.take(self@.len() as int) =~= self@);
        }
        out
    }

    /// The pairs whose key has no cache entry yet, in order: the work list of
    /// one generation pass.
    pub fn pairs_needing_generation(&self, store: &CacheStore) -> (r: Vec<(String, String)>)
        ensures
            r@.map_values(|p: (String, String)| (p.0@, p.1@)) =~= uncached_pairs(
                self@,
                store@,
            ),
    {
        let pairs = &self.wallpaper_pairs;
        let mut out: Vec<(String, String)> = Vec::new();
        let mut i: usize = 0;
        while i < pairs.len()
            invariant
                i <= pairs.len(),
                self@.len() == pairs@.len(),
                forall|k: int|
                    0 <= k < pairs@.len() ==> self@[k] == ((#[trigger] pairs@[k]).0@,
                    pairs@[k].1@),
                out@.map_values(|p: (String, String)| (p.0@, p.1@)) =~= uncached_pairs(
                    self@.take(i as int),
                    store@,
                ),
            decreases pairs.len() - i,
        {
            proof {
                assert(self@.take(i + 1).drop_last() =~= self@.take(i as int));
                assert(self@.take(i + 1).last() == self@[i as int]);
            }
            let p = &pairs[i];
            let key = pair_key(p.0.as_str(), p.1.as_str());
            if !store.has(&key) {
                out.push((p.0.clone(), p.1.clone()));
            }
            i = i + 1;
        }
        proof {
            assert(self@.take(self@.len() as int) =~= self@);
        }
        out
    }

    /// The cache folder names of all pairs, in playback order, provided every
    /// pair has its entry; the first missing key otherwise.
    pub fn cache_folders(&self, store: &CacheStore) -> (r: Result<Vec<String>, CacheError>)
        ensures
            r is Ok <==> (forall|i: int|
                0 <= i < self@.len() ==> store@.contains(
                    key_of(#[trigger] self@[i].0, self@[i].1),
                )),
            r matches Ok(v) ==> v@.len() == self@.len() && (forall|i: int|
                0 <= i < self@.len() ==> (#[trigger] v@[i])@ == key_of(
                    self@[i].0,
                    self@[i].1,
                )),
            r matches Err(CacheError::MissingEntry(k)) ==> exists|i: int|
                0 <= i < self@.len() && k@ == key_of(#[trigger] self@[i].0, self@[i].1)
                    && !store@.contains(k@) && (forall|p: int|
                    0 <= p < i ==> store@.contains(
                        key_of(#[trigger] self@[p].0, self@[p].1),
                    )),
    {
        let pairs = &self.wallpaper_pairs;
        let mut out: Vec<String> = Vec::new();
        let mut i: usize = 0;
        while i < pairs.len()
            invariant
                i <= pairs.len(),
                self@.len() == pairs@.len(),
                forall|k: int|
                    0 <= k < pairs@.len() ==> self@[k] == ((#[trigger] pairs@[k]).0@,
                    pairs@[k].1@),
                out@.len() == i,
                forall|k: int|
                    0 <= k < i ==> (#[trigger] out@[k])@ == key_of(self@[k].0, self@[k].1),
                forall|k: int|
                    0 <= k < i ==> store@.contains(key_of(#[trigger] self@[k].0, self@[k].1)),
            decreases pairs.len() - i,
        {
            let p = &pairs[i];
            let key = pair_key(p.0.as_str(), p.1.as_str());
            if !store.has(&key) {
                proof {
                    assert(!store@.contains(key_of(#[trigger] self@[i as int].0,
                        self@[i as int].1)));
                }
                return Err(CacheError::MissingEntry(key));
            }
            out.push(key);
            i = i + 1;
        }
        Ok(out)
    }
}

/// The keys of the pairs that have `n` as either member, kept in pair order.
pub open spec fn touching_keys(pairs: Seq<(Seq<char>, Seq<char>)>, n: Seq<char>) -> Seq<
    Seq<char>,
>
    decreases pairs.len(),
{
    if pairs.len() == 0 {
        Seq::empty()
    } else {
        let rest = touching_keys(pairs.drop_last(), n);
        let last = pairs.last();
        if last.0 == n || last.1 == n {
            rest.push(key_of(last.0, last.1))
        } else {
            rest
        }
    }
}

/// `touching_keys` holds the key of every pair with `n` as a member, and
/// nothing else.
pub proof fn lemma_touching_keys_characterized(pairs: Seq<(Seq<char>, Seq<char>)>, n: Seq<char>)
    ensures
        forall|i: int|
            0 <= i < pairs.len() && ((#[trigger] pairs[i]).0 == n || pairs[i].1 == n)
                ==> touching_keys(pairs, n).contains(key_of(pairs[i].0, pairs[i].1)),
        forall|k: Seq<char>|
            touching_keys(pairs, n).contains(k) ==> exists|i: int|
                0 <= i < pairs.len() && ((#[trigger] pairs[i]).0 == n || pairs[i].1 == n) && k
                    == key_of(pairs[i].0, pairs[i].1),
    decreases pairs.len(),
{
    if pairs.len() > 0 {
        lemma_touching_keys_characterized(pairs.drop_last(), n);
        let rest = touching_keys(pairs.drop_last(), n);
        assert forall|i: int|
            0 <= i < pairs.len() && ((#[trigger] pairs[i]).0 == n || pairs[i].1
                == n) implies touching_keys(pairs, n).contains(
            key_of(pairs[i].0, pairs[i].1),
        ) by {
            if i < pairs.len() - 1 {
                assert(pairs.drop_last()[i] == pairs[i]);
                assert(rest.contains(key_of(pairs[i].0, pairs[i].1)));
                let w = choose|w: int|
                    0 <= w < rest.len() && rest[w] == key_of(pairs[i].0, pairs[i].1);
                assert(touching_keys(pairs, n)[w] == rest[w]);
            } else {
                let t = touching_keys(pairs, n);
                assert(t.last() == key_of(pairs[i].0, pairs[i].1));
            }
        }
        assert forall|k: Seq<char>| touching_keys(pairs, n).contains(k) implies exists|i: int|
            0 <= i < pairs.len() && ((#[trigger] pairs[i]).0 == n || pairs[i].1 == n) && k
                == key_of(pairs[i].0, pairs[i].1) by {
            let t = touching_keys(pairs, n);
            let w = choose|w: int| 0 <= w < t.len() && t[w] == k;
            if w < rest.len() {
                assert(rest.contains(k)) by {
                    assert(rest[w] == k);
                }
                let i = choose|i: int|
                    0 <= i < pairs.drop_last().len() && ((#[trigger] pairs.drop_last()[i]).0 == n
                        || pairs.drop_last()[i].1 == n) && k == key_of(
                        pairs.drop_last()[i].0,
                        pairs.drop_last()[i].1,
                    );
                assert(pairs[i] == pairs.drop_last()[i]);
                assert((pairs[i].0 == n || pairs[i].1 == n) && k == key_of(
                    pairs[i].0,
                    pairs[i].1,
                ));
            } else {
                let i = pairs.len() - 1;
                assert((pairs[i].0 == n || pairs[i].1 == n) && k == key_of(
                    pairs[i].0,
                    pairs[i].1,
                ));
            }
        }
    }
}

/// The pairs whose key is absent from `cached`, kept in pair order.
pub open spec fn uncached_pairs(
    pairs: Seq<(Seq<char>, Seq<char>)>,
    cached: Seq<Seq<char>>,
) -> Seq<(Seq<char>, Seq<char>)>
    decreases pairs.len(),
{
    if pairs.len() == 0 {
        Seq::empty()
    } else {
        let rest = uncached_pairs(pairs.drop_last(), cached);
        let last = pairs.last();
        if !cached.contains(key_of(last.0, last.1)) {
            rest.push(last)
        } else {
            rest
        }
    }
}

/// A generation pass never takes up a pair whose key already has an entry:
/// re-running generation leaves an existing cache folder untouched.
pub proof fn lemma_generation_skips_cached(
    pairs: Seq<(Seq<char>, Seq<char>)>,
    cached: Seq<Seq<char>>,
    i: int,
)
    requires
        0 <= i < pairs.len(),
        cached.contains(key_of(pairs[i].0, pairs[i].1)),
    ensures
        !uncached_pairs(pairs, cached).contains(pairs[i]),
    decreases pairs.len(),
{
    let u = uncached_pairs(pairs, cached);
    if u.contains(pairs[i]) {
        let w = choose|w: int| 0 <= w < u.len() && u[w] == pairs[i];
        lemma_uncached_pairs_sound(pairs, cached, w);
    }
}

/// Every pair a generation pass takes up has no cache entry yet.
pub proof fn lemma_uncached_pairs_sound(
    pairs: Seq<(Seq<char>, Seq<char>)>,
    cached: Seq<Seq<char>>,
    w: int,
)
    requires
        0 <= w < uncached_pairs(pairs, cached).len(),
    ensures
        !cached.contains(
            key_of(
                uncached_pairs(pairs, cached)[w].0,
                uncached_pairs(pairs, cached)[w].1,
            ),
        ),
    decreases pairs.len(),
{
    if pairs.len() > 0 {
        let rest = uncached_pairs(pairs.drop_last(), cached);
        if w < rest.len() {
            lemma_uncached_pairs_sound(pairs.drop_last(), cached, w);
        }
    }
}

/// The playback path could not resolve a pair's cache entry.
#[derive(Debug)]
pub enum CacheError {
    /// The folder for this key does not exist.
    MissingEntry(String),
}

/// Models which pair keys currently have a cache folder on disk. The entry
/// set is the sole cache-hit signal; creation of an entry that already exists
/// changes nothing, so a racing second fill never overwrites frames.
pub struct CacheStore {
    keys: Vec<String>,
}

impl View for CacheStore {
    type V = Seq<Seq<char>>;

    closed spec fn view(&self) -> Seq<Seq<char>> {
        self.keys@.map_values(|s: String| s@)
    }
}

impl CacheStore {
    /// The entries hold no duplicate keys.
    pub open spec fn wf(&self) -> bool {
        forall|i: int, j: int| 0 <= i < j < self@.len() ==> self@[i] != self@[j]
    }

    /// A store with no entries.
    pub fn new() -> (r: Self)
        ensures
            r.wf(),
            r@ =~= Seq::<Seq<char>>::empty(),
    {
        Self { keys: Vec::new() }
    }

    /// Whether a pair key has a cache entry.
    pub fn has(&self, key: &String) -> (r: bool)
        ensures
            r == self@.contains(key@),
    {
        let mut i: usize = 0;
        while i < self.keys.len()
            invariant
                i <= self.keys.len(),
                forall|k: int| 0 <= k < i ==> self@[k] != key@,
            decreases self.keys.len() - i,
        {
            if self.keys[i] == *key {
                proof {
                    assert(self@[i as int] == key@);
                }
                return true;
            }
            i = i + 1;
        }
        proof {
            if self@.contains(key@) {
                let k = choose|k: int| 0 <= k < self@.len() && self@[k] == key@;
            }
        }
        false
    }

    /// Records a new entry for a key; a key that already has one is left
    /// exactly as it was, and the call reports whether it created anything.
    pub fn create(&mut self, key: &String) -> (created: bool)
        requires
            old(self).wf(),
        ensures
            final(self).wf(),
            created == !old(self)@.contains(key@),
            forall|n: Seq<char>|
                final(self)@.contains(n) <==> old(self)@.contains(n) || n == key@,
            old(self)@.contains(key@) ==> final(self)@ =~= old(self)@,
    {
        if self.has(key) {
            return false;
        }
        let ghost prev = self@;
        self.keys.push(key.clone());
        proof {
            let cur = self@;
            assert(cur.len() == prev.len() + 1);
            assert(forall|k: int| 0 <= k < prev.len() ==> cur[k] == prev[k]);
            assert(cur[prev.len() as int] == key@);
            assert forall|n: Seq<char>| cur.contains(n) implies prev.contains(n) || n
                == key@ by {
                let k = choose|k: int| 0 <= k < cur.len() && cur[k] == n;
                if k < prev.len() {
                    assert(prev[k] == n);
                }
            }
            assert forall|n: Seq<char>| prev.contains(n) || n == key@ implies cur.contains(
                n,
            ) by {
                if prev.contains(n) {
                    let k = choose|k: int| 0 <= k < prev.len() && prev[k] == n;
                    assert(cur[k] == n);
                } else {
                    assert(cur[prev.len() as int] == n);
                }
            }
        }
        true
    }

    /// Drops the entry of a key; a key without one changes nothing.
    pub fn invalidate(&mut self, key: &String)
        requires
            old(self).wf(),
        ensures
            final(self).wf(),
            forall|n: Seq<char>|
                final(self)@.contains(n) <==> old(self)@.contains(n) && n != key@,
            !old(self)@.contains(key@) ==> final(self)@ =~= old(self)@,
    {
        let ghost prev = self@;
        let mut i: usize = 0;
        loop
            invariant
                self@ == prev,
                old(self).wf(),
                i <= self.keys.len(),
                forall|k: int| 0 <= k < i ==> prev[k] != key@,
            ensures
                self@ == prev,
                i < self.keys.len(),
                prev[i as int] == key@,
            decreases self.keys.len() - i,
        {
            if i == self.keys.len() {
                proof {
                    assert forall|n: Seq<char>| prev.contains(n) implies n != key@ by {
                        let k = choose|k: int| 0 <= k < prev.len() && prev[k] == n;
                    }
                }
                return;
            }
            if self.keys[i] == *key {
                proof {
                    assert(prev[i as int] == key@);
                }
                break;
            }
            i = i + 1;
        }
        self.keys.remove(i);
        proof {
            let cur = self@;
            assert(cur.len() + 1 == prev.len());
            assert(forall|k: int| 0 <= k < i ==> cur[k] == prev[k]);
            assert(forall|k: int| i <= k < cur.len() ==> cur[k] == prev[k + 1]);
            assert forall|n: Seq<char>| cur.contains(n) implies prev.contains(n) && n
                != key@ by {
                let k = choose|k: int| 0 <= k < cur.len() && cur[k] == n;
                if k < i {
                    assert(prev[k] == n);
                } else {
                    assert(prev[k + 1] == n);
                }
            }
            assert forall|n: Seq<char>| prev.contains(n) && n != key@ implies cur.contains(
                n,
            ) by {
                let k = choose|k: int| 0 <= k < prev.len() && prev[k] == n;
                if k < i {
                    assert(cur[k] == n);
                } else if k > i {
                    assert(cur[k - 1] == n);
                }
            }
        }
    }

    /// Drops the entries of all the given keys, leaving the rest in place.
    pub fn invalidate_all(&mut self, keys: &Vec<String>)
        requires
            old(self).wf(),
        ensures
            final(self).wf(),
            forall|n: Seq<char>|
                final(self)@.contains(n) <==> old(self)@.contains(n) && !keys@.map_values(
                    |s: String| s@,
                ).contains(n),
    {
        let ghost named = keys@.map_values(|s: String| s@);
        let mut i: usize = 0;
        while i < keys.len()
            invariant
                self.wf(),
                i <= keys.len(),
                named == keys@.map_values(|s: String| s@),
                forall|n: Seq<char>|
                    self@.contains(n) <==> old(self)@.contains(n) && !named.take(
                        i as int,
                    ).contains(n),
            decreases keys.len() - i,
        {
            proof {
                assert(named[i as int] == keys@[i as int]@);
            }
            self.invalidate(&keys[i]);
            proof {
                assert forall|n: Seq<char>| named.take(i + 1).contains(n) implies named.take(
                    i as int,
                ).contains(n) || n == named[i as int] by {
                    let k = choose|k: int| 0 <= k < i + 1 && #[trigger] named.take(i + 1)[k] == n;
                    if k < i {
                        assert(named.take(i as int)[k] == n);
                    }
                }
                assert forall|n: Seq<char>|
                    named.take(i as int).contains(n) || n == named[i as int] implies named.take(
                    i + 1,
                ).contains(n) by {
                    if named.take(i as int).contains(n) {
                        let k = choose|k: int| 0 <= k < i && named.take(i as int)[k] == n;
                        assert(named.take(i + 1)[k] == n);
                    } else {
                        assert(named.take(i + 1)[i as int] == n);
                    }
                }
            }
            i = i + 1;
        }
        proof {
            assert(named.take(keys@.len() as int) =~= named);
        }
    }
}

} // verus!
