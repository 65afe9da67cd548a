//! Directory-scan filtering.
//!
//! The startup scan lists a directory's files with their pixel dimensions and
//! keeps only those large enough for the target resolution; everything about
//! reading the directory itself belongs to the surrounding program.
use vstd::prelude::*;

verus! {

/// Whether dimensions fall below a target, comparing width first and height
/// as the tie-breaker — the order the directory scan uses to skip images too
/// small to fill the screen.
pub open spec fn dims_below(d: (u32, u32), target: (u32, u32)) -> bool {
    d.0 < target.0 || (d.0 == target.0 && d.1 < target.1)
}

/// The names of the scanned files whose dimensions are not below the target,
/// in scan order.
pub open spec fn eligible_names(
    entries: Seq<(Seq<char>, (u32, u32))>,
    target: (u32, u32),
) -> Seq<Seq<char>>
    decreases entries.len(),
{
    if entries.len() == 0 {
        Seq::empty()
    } else {
        let rest = eligible_names(entries.drop_last(), target);
        if !dims_below(entries.last().1, target) {
            rest.push(entries.last().0)
        } else {
            rest
        }
    }
}

/// Keeps the scanned files that are large enough for the target resolution,
/// dropping each one whose dimensions fall below it.
pub fn eligible_wallpapers(entries: &Vec<(String, (u32, u32))>, target: (u32, u32)) -> (r: Vec<
    String,
>)
    ensures
        r@.map_values(|s: String| s@) =~= eligible_names(
            entries@.map_values(|e: (String, (u32, u32))| (e.0@, e.1)),
            target,
        ),
{
    let ghost ghost_entries = entries@.map_values(|e: (String, (u32, u32))| (e.0@, e.1));
    let mut out: Vec<String> = Vec::new();
    let mut i: usize = 0;
    while i < entries.len()
        invariant
            i <= entries.len(),
            ghost_entries == entries@.map_values(|e: (String, (u32, u32))| (e.0@, e.1)),
            ghost_entries.len() == entries@.len(),
            forall|k: int|
                0 <= k < entries@.len() ==> ghost_entries[k] == ((#[trigger] entries@[k]).0@,
                entries@[k].1),
            out@.map_values(|s: String| s@) =~= eligible_names(
                ghost_entries.take(i as int),
                target,
            ),
        decreases entries.len() - i,
    {
        proof {
            assert(ghost_entries.take(i + 1).drop_last() =~= ghost_entries.take(i as int));
            assert(ghost_entries.take(i + 1).last() == ghost_entries[i as int]);
        }
        let e = &entries[i];
        let dims = e.1;
        if !(dims.0 < target.0 || (dims.0 == target.0 && dims.1 < target.1)) {
            out.push(e.0.clone());
        }
        i = i + 1;
    }
    proof {
        assert(ghost_entries.take(ghost_entries.len() as int) =~= ghost_entries);
    }
    out
}

} // verus!
