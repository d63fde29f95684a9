//! How a vehicle's availability windows change when a window is added or taken away.

use vstd::prelude::*;
use crate::interval::{Interval, apart};
use crate::records::{AvailabilityData, VehicleData};
use crate::status::Status;
use crate::data::Data;

verus! {

/// No window starts after it ends, and any two different entries lie apart: they neither
/// overlap nor touch.
pub open spec fn windows_apart(s: Seq<AvailabilityData>) -> bool {
    &&& forall|i: int| 0 <= i < s.len() ==> #[trigger] s[i].interval.is_ordered()
    &&& forall|i: int, j: int|
        0 <= i < s.len() && 0 <= j < s.len() && s[i] != s[j] ==> apart(#[trigger] s[i].interval, #[trigger] s[j].interval)
}

/// No window starts after it ends.
pub open spec fn windows_ordered(s: Seq<AvailabilityData>) -> bool {
    forall|i: int| 0 <= i < s.len() ==> #[trigger] s[i].interval.is_ordered()
}

/// No window starts after it ends, and no two entries overlap (they may touch).
pub open spec fn windows_disjoint(s: Seq<AvailabilityData>) -> bool {
    &&& windows_ordered(s)
    &&& forall|i: int, j: int|
        0 <= i < s.len() && 0 <= j < s.len() && i != j ==> !(#[trigger] s[i]).interval.overlaps_spec((#[trigger] s[j]).interval)
}

/// Windows that lie apart, under distinct ids, do not overlap.
pub proof fn lemma_apart_windows_disjoint(s: Seq<AvailabilityData>)
    requires
        windows_apart(s),
        ids_distinct(s),
    ensures
        windows_disjoint(s),
{
    assert forall|i: int, j: int| 0 <= i < s.len() && 0 <= j < s.len() && i != j implies !(#[trigger] s[i]).interval.overlaps_spec(
        (#[trigger] s[j]).interval,
    ) by {
        assert(s[i].id != s[j].id);
        assert(apart(s[i].interval, s[j].interval));
    }
}

/// No id occurs twice.
pub open spec fn ids_distinct(s: Seq<AvailabilityData>) -> bool {
    forall|i: int, j: int| 0 <= i < s.len() && 0 <= j < s.len() && i != j ==> #[trigger] s[i].id != #[trigger] s[j].id
}

/// Keeps the entries whose id is not listed.
pub open spec fn not_listed(ids: Seq<i32>) -> spec_fn(AvailabilityData) -> bool {
    |a: AvailabilityData| !ids.contains(a.id)
}

/// Gives the entry with this id the window `interval`.
pub open spec fn with_window(id: i32, interval: Interval) -> spec_fn(AvailabilityData) -> AvailabilityData {
    |a: AvailabilityData| if a.id == id { AvailabilityData { id: a.id, interval: interval } } else { a }
}

/// Walks the windows in order while a new window `cur` is added. A window that neither
/// overlaps nor touches `cur` is kept; one that touches it is listed for removal and merged
/// into `cur`; one that holds `cur` ends the walk with nothing to do (`.0` is then true); any
/// other overlapping window is listed for removal (twice, when `cur` holds it) and merged.
/// The result lists the ids to remove and the window to store in their place.
pub open spec fn addition_scan(s: Seq<AvailabilityData>, cur: Interval, ids: Seq<i32>) -> (bool, Seq<i32>, Interval)
    decreases s.len(),
{
    if s.len() == 0 {
        (false, ids, cur)
    } else {
        let e = s[0];
        let rest = s.drop_first();
        if !e.interval.overlaps_spec(cur) {
            if e.interval.touches_spec(cur) {
                addition_scan(rest, cur.merge_spec(e.interval), ids.push(e.id))
            } else {
                addition_scan(rest, cur, ids)
            }
        } else if e.interval.contains_spec(cur) {
            (true, ids, cur)
        } else {
            let ids1 = if cur.contains_spec(e.interval) { ids.push(e.id) } else { ids };
            addition_scan(rest, cur.merge_spec(e.interval), ids1.push(e.id))
        }
    }
}

/// Walks the windows in order while `r` is taken away. `.3` tells whether any window
/// overlaps `r`. The first window that holds `r` is removed and split around it, which ends
/// the walk (`.2`); a window that `r` holds is removed (`.1`); any other overlapping window is
/// cut back (`.0`, its id with the window that is left).
pub open spec fn removal_scan(
    s: Seq<AvailabilityData>,
    r: Interval,
    cuts: Seq<(i32, Interval)>,
    deletions: Seq<i32>,
    touched: bool,
) -> (Seq<(i32, Interval)>, Seq<i32>, Option<(Interval, Interval)>, bool)
    decreases s.len(),
{
    if s.len() == 0 {
        (cuts, deletions, None, touched)
    } else {
        let e = s[0];
        let rest = s.drop_first();
        if !e.interval.overlaps_spec(r) {
            removal_scan(rest, r, cuts, deletions, touched)
        } else if e.interval.contains_spec(r) {
            (cuts, deletions.push(e.id), Some(e.interval.split_spec(r)), true)
        } else if r.contains_spec(e.interval) {
            removal_scan(rest, r, cuts, deletions.push(e.id), true)
        } else {
            removal_scan(rest, r, cuts.push((e.id, e.interval.cut_spec(r))), deletions, true)
        }
    }
}

/// What adding a window to a vehicle's availability amounts to.
pub enum AvailabilityAddition {
    /// An existing window already holds the new one: nothing changes.
    Covered,
    /// Remove the entries with these ids, then store `merged` under a new id.
    Merge { remove_ids: Vec<i32>, merged: Interval },
}

/// What taking a window away from a vehicle's availability amounts to.
pub struct AvailabilityRemoval {
    /// entries to shrink: the id and the window that is left of it
    pub cuts: Vec<(i32, Interval)>,
    /// ids of the entries to remove
    pub deletions: Vec<i32>,
    /// the two parts of a removed window that held the taken-away window; they are added anew
    pub split: Option<(Interval, Interval)>,
    /// whether any window overlapped the taken-away window
    pub touched: bool,
}

impl AvailabilityAddition {
    pub open spec fn matches_scan(&self, scan: (bool, Seq<i32>, Interval)) -> bool {
        match self {
            AvailabilityAddition::Covered => scan.0,
            AvailabilityAddition::Merge { remove_ids, merged } => !scan.0 && remove_ids@ == scan.1
                && *merged == scan.2,
        }
    }
}


/// An ordered window that lies apart from two ordered windows that overlap or touch each other
/// lies apart from their merge.
proof fn lemma_apart_from_merge(x: Interval, a: Interval, b: Interval)
    requires
        x.is_ordered(),
        a.is_ordered(),
        b.is_ordered(),
        apart(x, a),
        apart(x, b),
        a.overlaps_spec(b) || a.touches_spec(b),
    ensures
        apart(x, a.merge_spec(b)),
{
}

/// While an ordered window is added to windows that lie apart, every entry already passed and
/// not listed for removal lies apart from the growing window; at the end this holds of every
/// entry that is kept.
proof fn lemma_addition_scan_apart(full: Seq<AvailabilityData>, i: int, cur: Interval, ids: Seq<i32>)
    requires
        windows_apart(full),
        0 <= i <= full.len(),
        cur.is_ordered(),
        forall|j: int| 0 <= j < i && !ids.contains(full[j].id) ==> apart(full[j].interval, cur),
    ensures
        ({
            let res = addition_scan(full.skip(i), cur, ids);
            !res.0 ==> {
                &&& res.2.is_ordered()
                &&& forall|j: int|
                    0 <= j < full.len() && !res.1.contains(#[trigger] full[j].id) ==> apart(full[j].interval, res.2)
            }
        }),
    decreases full.len() - i,
{
    if i == full.len() {
        assert(full.skip(i).len() == 0);
    } else {
        let e = full[i];
        assert(full.skip(i)[0] == e);
        assert(full.skip(i).drop_first() =~= full.skip(i + 1));
        assert(e.interval.is_ordered());
        if !e.interval.overlaps_spec(cur) {
            if e.interval.touches_spec(cur) {
                let cur2 = cur.merge_spec(e.interval);
                let ids2 = ids.push(e.id);
                assert forall|j: int| 0 <= j < i + 1 && !ids2.contains(full[j].id) implies apart(
                    full[j].interval,
                    cur2,
                ) by {
                    assert(ids2[ids.len() as int] == e.id);
                    if ids.contains(full[j].id) {
                        let k = choose|k: int| 0 <= k < ids.len() && ids[k] == full[j].id;
                        assert(ids2[k] == full[j].id);
                    }
                    assert(full[j] != e);
                    assert(apart(full[j].interval, full[i].interval));
                    assert(full[j].interval.is_ordered());
                    lemma_apart_from_merge(full[j].interval, cur, e.interval);
                }
                lemma_addition_scan_apart(full, i + 1, cur2, ids2);
            } else {
                lemma_addition_scan_apart(full, i + 1, cur, ids);
            }
        } else if e.interval.contains_spec(cur) {
        } else {
            let ids1 = if cur.contains_spec(e.interval) { ids.push(e.id) } else { ids };
            let cur2 = cur.merge_spec(e.interval);
            let ids2 = ids1.push(e.id);
            assert forall|j: int| 0 <= j < i + 1 && !ids2.contains(full[j].id) implies apart(
                full[j].interval,
                cur2,
            ) by {
                assert(ids2[ids1.len() as int] == e.id);
                if ids.contains(full[j].id) {
                    let k = choose|k: int| 0 <= k < ids.len() && ids[k] == full[j].id;
                    assert(ids1[k] == full[j].id);
                    assert(ids2[k] == full[j].id);
                }
                assert(full[j] != e);
                assert(apart(full[j].interval, full[i].interval));
                assert(full[j].interval.is_ordered());
                lemma_apart_from_merge(full[j].interval, cur, e.interval);
            }
            lemma_addition_scan_apart(full, i + 1, cur2, ids2);
            assert forall|x: i32| ids.contains(x) implies ids2.contains(x) by {
                let k = choose|k: int| 0 <= k < ids.len() && ids[k] == x;
                assert(ids1[k] == x);
                assert(ids2[k] == x);
            }
        }
    }
}

/// Adding an ordered window to windows that lie apart keeps them apart: once the listed
/// entries are removed and the merged window is stored, no two entries overlap or touch.
pub proof fn lemma_addition_keeps_windows_apart(s: Seq<AvailabilityData>, new_interval: Interval, id: i32)
    requires
        windows_apart(s),
        new_interval.is_ordered(),
    ensures
        ({
            let res = addition_scan(s, new_interval, Seq::empty());
            !res.0 ==> windows_apart(s.filter(not_listed(res.1)).push(AvailabilityData { id, interval: res.2 }))
        }),
{
    assert(s.skip(0) =~= s);
    lemma_addition_scan_apart(s, 0, new_interval, Seq::empty());
    let res = addition_scan(s, new_interval, Seq::empty());
    if !res.0 {
        let kept = s.filter(not_listed(res.1));
        let n = AvailabilityData { id, interval: res.2 };
        let all = kept.push(n);
        assert forall|k: int| 0 <= k < kept.len() implies ({
            &&& kept[k].interval.is_ordered()
            &&& apart(kept[k].interval, res.2)
            &&& exists|j: int| 0 <= j < s.len() && s[j] == kept[k]
        }) by {
            s.lemma_filter_pred(not_listed(res.1), k);
            assert(kept.contains(kept[k]));
            s.lemma_filter_contains_rev(not_listed(res.1), kept[k]);
            let j = choose|j: int| 0 <= j < s.len() && s[j] == kept[k];
            assert(s[j].interval.is_ordered());
        }
        assert forall|a: int| 0 <= a < all.len() implies #[trigger] all[a].interval.is_ordered() by {
            if a < kept.len() {
                assert(all[a] == kept[a]);
            }
        }
        assert forall|a: int, b: int|
            0 <= a < all.len() && 0 <= b < all.len() && all[a] != all[b] implies apart(
            #[trigger] all[a].interval,
            #[trigger] all[b].interval,
        ) by {
            if a < kept.len() && b < kept.len() {
                assert(all[a] == kept[a]);
                assert(all[b] == kept[b]);
                let ja = choose|j: int| 0 <= j < s.len() && s[j] == kept[a];
                let jb = choose|j: int| 0 <= j < s.len() && s[j] == kept[b];
                assert(apart(s[ja].interval, s[jb].interval));
            } else if a < kept.len() {
                assert(all[a] == kept[a]);
            } else if b < kept.len() {
                assert(all[b] == kept[b]);
            }
        }
    }
}

/// While a window is added, the growing window holds the one it started from; a window that
/// ends the walk by holding the growing window holds the one it started from too.
proof fn lemma_addition_scan_covers(s: Seq<AvailabilityData>, cur: Interval, ids: Seq<i32>)
    ensures
        ({
            let res = addition_scan(s, cur, ids);
            &&& res.0 ==> exists|k: int| 0 <= k < s.len() && (#[trigger] s[k]).interval.contains_spec(cur)
            &&& !res.0 ==> res.2.contains_spec(cur)
        }),
    decreases s.len(),
{
    if s.len() > 0 {
        let e = s[0];
        let rest = s.drop_first();
        if !e.interval.overlaps_spec(cur) {
            if e.interval.touches_spec(cur) {
                let cur2 = cur.merge_spec(e.interval);
                lemma_addition_scan_covers(rest, cur2, ids.push(e.id));
                if addition_scan(rest, cur2, ids.push(e.id)).0 {
                    let k = choose|k: int| 0 <= k < rest.len() && (#[trigger] rest[k]).interval.contains_spec(cur2);
                    assert(s[k + 1] == rest[k]);
                }
            } else {
                lemma_addition_scan_covers(rest, cur, ids);
                if addition_scan(rest, cur, ids).0 {
                    let k = choose|k: int| 0 <= k < rest.len() && (#[trigger] rest[k]).interval.contains_spec(cur);
                    assert(s[k + 1] == rest[k]);
                }
            }
        } else if e.interval.contains_spec(cur) {
            assert(s[0].interval.contains_spec(cur));
        } else {
            let ids1 = if cur.contains_spec(e.interval) { ids.push(e.id) } else { ids };
            let cur2 = cur.merge_spec(e.interval);
            lemma_addition_scan_covers(rest, cur2, ids1.push(e.id));
            if addition_scan(rest, cur2, ids1.push(e.id)).0 {
                let k = choose|k: int| 0 <= k < rest.len() && (#[trigger] rest[k]).interval.contains_spec(cur2);
                assert(s[k + 1] == rest[k]);
            }
        }
    }
}

/// Adding a window leaves it held: either a window already there holds it, or the window
/// stored in place of the removed ones does.
pub proof fn lemma_addition_holds_new_window(s: Seq<AvailabilityData>, new_interval: Interval)
    ensures
        ({
            let res = addition_scan(s, new_interval, Seq::empty());
            &&& res.0 ==> exists|k: int| 0 <= k < s.len() && (#[trigger] s[k]).interval.contains_spec(new_interval)
            &&& !res.0 ==> res.2.contains_spec(new_interval)
        }),
{
    lemma_addition_scan_covers(s, new_interval, Seq::empty());
}

/// The window the last cut with this id leaves, if any cut has this id.
pub open spec fn cut_for(cuts: Seq<(i32, Interval)>, id: i32) -> Option<Interval>
    decreases cuts.len(),
{
    if cuts.len() == 0 {
        None
    } else if cuts.last().0 == id {
        Some(cuts.last().1)
    } else {
        cut_for(cuts.drop_last(), id)
    }
}

/// The windows once each cut, in order, has given the entry with its id the window left.
pub open spec fn apply_cuts(s: Seq<AvailabilityData>, cuts: Seq<(i32, Interval)>) -> Seq<AvailabilityData>
    decreases cuts.len(),
{
    if cuts.len() == 0 {
        s
    } else {
        apply_cuts(s, cuts.drop_last()).map_values(with_window(cuts.last().0, cuts.last().1))
    }
}

/// What taking `r` away does to one entry: one that does not overlap `r` is neither cut nor
/// removed; one that holds `r` or that `r` holds is removed; any other is cut back and kept.
pub open spec fn removal_outcome(e: AvailabilityData, r: Interval, cuts: Seq<(i32, Interval)>, deletions: Seq<i32>) -> bool {
    if !e.interval.overlaps_spec(r) {
        cut_for(cuts, e.id) is None && !deletions.contains(e.id)
    } else if e.interval.contains_spec(r) || r.contains_spec(e.interval) {
        deletions.contains(e.id)
    } else {
        cut_for(cuts, e.id) == Some(e.interval.cut_spec(r)) && !deletions.contains(e.id)
    }
}

/// Applying cuts keeps every entry's id and changes only the window of entries some cut names.
proof fn lemma_apply_cuts_entries(s: Seq<AvailabilityData>, cuts: Seq<(i32, Interval)>)
    ensures
        apply_cuts(s, cuts).len() == s.len(),
        forall|k: int|
            0 <= k < s.len() ==> #[trigger] apply_cuts(s, cuts)[k] == match cut_for(cuts, s[k].id) {
                Some(iv) => AvailabilityData { id: s[k].id, interval: iv },
                None => s[k],
            },
    decreases cuts.len(),
{
    if cuts.len() > 0 {
        lemma_apply_cuts_entries(s, cuts.drop_last());
    }
}

/// A cut found for an id comes from a cut with that id.
proof fn lemma_cut_for_listed(cuts: Seq<(i32, Interval)>, id: i32)
    requires
        cut_for(cuts, id) is Some,
    ensures
        exists|c: int| 0 <= c < cuts.len() && (#[trigger] cuts[c]).0 == id,
    decreases cuts.len(),
{
    if cuts.last().0 != id {
        lemma_cut_for_listed(cuts.drop_last(), id);
        let c = choose|c: int| 0 <= c < cuts.drop_last().len() && (#[trigger] cuts.drop_last()[c]).0 == id;
        assert(cuts[c] == cuts.drop_last()[c]);
    } else {
        assert(cuts[cuts.len() - 1] == cuts.last());
    }
}

/// Parts of two windows that lie apart lie apart too.
proof fn lemma_apart_parts(a: Interval, b: Interval, a2: Interval, b2: Interval)
    requires
        a.is_ordered(),
        b.is_ordered(),
        a2.is_ordered(),
        b2.is_ordered(),
        apart(a, b),
        a.contains_spec(a2),
        b.contains_spec(b2),
    ensures
        apart(a2, b2),
{
}

/// The walk that takes `r` away, from position `i` on, settles every entry as
/// `removal_outcome` says, tells whether any entry overlaps `r`, and splits only a window that
/// holds `r`.
proof fn lemma_removal_scan_outcome(
    full: Seq<AvailabilityData>,
    r: Interval,
    i: int,
    cuts: Seq<(i32, Interval)>,
    dels: Seq<i32>,
    touched: bool,
)
    requires
        windows_disjoint(full),
        ids_distinct(full),
        0 <= i <= full.len(),
        forall|j: int| 0 <= j < i ==> removal_outcome(#[trigger] full[j], r, cuts, dels),
        forall|j: int| 0 <= j < i ==> !(#[trigger] full[j]).interval.contains_spec(r) || !full[j].interval.overlaps_spec(r),
        forall|c: int| 0 <= c < cuts.len() ==> exists|j: int| 0 <= j < i && (#[trigger] full[j]).id == (#[trigger] cuts[c]).0,
        forall|d: int| 0 <= d < dels.len() ==> exists|j: int| 0 <= j < i && (#[trigger] full[j]).id == (#[trigger] dels[d]),
        touched == exists|j: int| 0 <= j < i && (#[trigger] full[j]).interval.overlaps_spec(r),
    ensures
        ({
            let res = removal_scan(full.skip(i), r, cuts, dels, touched);
            &&& forall|k: int| 0 <= k < full.len() ==> removal_outcome(#[trigger] full[k], r, res.0, res.1)
            &&& res.3 == exists|k: int| 0 <= k < full.len() && (#[trigger] full[k]).interval.overlaps_spec(r)
            &&& res.2 matches Some(parts) ==> exists|k: int|
                0 <= k < full.len() && (#[trigger] full[k]).interval.contains_spec(r) && full[k].interval.overlaps_spec(r)
                    && parts == full[k].interval.split_spec(r)
            &&& res.2 is None ==> forall|k: int|
                0 <= k < full.len() ==> !(#[trigger] full[k]).interval.contains_spec(r) || !full[k].interval.overlaps_spec(r)
        }),
    decreases full.len() - i,
{
    if i == full.len() {
        assert(full.skip(i).len() == 0);
    } else {
        let e = full[i];
        let rest = full.skip(i);
        assert(rest[0] == e);
        assert(rest.drop_first() =~= full.skip(i + 1));
        // no entry before `i` and no entry at or after it carries an id that is listed, unless
        // it is that entry
        assert forall|k: int| i <= k < full.len() implies cut_for(cuts, (#[trigger] full[k]).id) is None && !dels.contains(
            full[k].id,
        ) by {
            if cut_for(cuts, full[k].id) is Some {
                lemma_cut_for_listed(cuts, full[k].id);
                let c = choose|c: int| 0 <= c < cuts.len() && (#[trigger] cuts[c]).0 == full[k].id;
                let j = choose|j: int| 0 <= j < i && (#[trigger] full[j]).id == cuts[c].0;
                assert(full[j].id != full[k].id);
            }
            if dels.contains(full[k].id) {
                let d = choose|d: int| 0 <= d < dels.len() && dels[d] == full[k].id;
                let j = choose|j: int| 0 <= j < i && (#[trigger] full[j]).id == dels[d];
                assert(full[j].id != full[k].id);
            }
        }
        if !e.interval.overlaps_spec(r) {
            assert(removal_outcome(full[i], r, cuts, dels));
            assert forall|c: int| 0 <= c < cuts.len() implies exists|j: int| 0 <= j < i + 1 && (#[trigger] full[j]).id == (
            #[trigger] cuts[c]).0 by {
                let j = choose|j: int| 0 <= j < i && (#[trigger] full[j]).id == cuts[c].0;
            }
            assert forall|d: int| 0 <= d < dels.len() implies exists|j: int| 0 <= j < i + 1 && (#[trigger] full[j]).id == (
            #[trigger] dels[d]) by {
                let j = choose|j: int| 0 <= j < i && (#[trigger] full[j]).id == dels[d];
            }
            assert(touched == exists|j: int| 0 <= j < i + 1 && (#[trigger] full[j]).interval.overlaps_spec(r)) by {
                if exists|j: int| 0 <= j < i + 1 && (#[trigger] full[j]).interval.overlaps_spec(r) {
                    let j = choose|j: int| 0 <= j < i + 1 && (#[trigger] full[j]).interval.overlaps_spec(r);
                    assert(j < i);
                }
            }
            lemma_removal_scan_outcome(full, r, i + 1, cuts, dels, touched);
        } else if e.interval.contains_spec(r) {
            let dels2 = dels.push(e.id);
            assert(dels2[dels.len() as int] == e.id);
            assert forall|k: int| 0 <= k < full.len() implies removal_outcome(#[trigger] full[k], r, cuts, dels2) by {
                if k != i {
                    assert(full[k].id != e.id);
                    assert(dels2.contains(full[k].id) == dels.contains(full[k].id)) by {
                        if dels2.contains(full[k].id) {
                            let d = choose|d: int| 0 <= d < dels2.len() && dels2[d] == full[k].id;
                            assert(dels[d] == full[k].id);
                        }
                        if dels.contains(full[k].id) {
                            let d = choose|d: int| 0 <= d < dels.len() && dels[d] == full[k].id;
                            assert(dels2[d] == full[k].id);
                        }
                    }
                    if k > i {
                        assert(!full[k].interval.overlaps_spec(full[i].interval));
                        assert(!full[k].interval.overlaps_spec(r));
                    }
                }
            }
            assert(full[i].interval.overlaps_spec(r));
        } else if r.contains_spec(e.interval) {
            let dels2 = dels.push(e.id);
            assert(dels2[dels.len() as int] == e.id);
            assert forall|j: int| 0 <= j < i + 1 implies removal_outcome(#[trigger] full[j], r, cuts, dels2) by {
                if j < i {
                    assert(full[j].id != e.id);
                    assert(dels2.contains(full[j].id) == dels.contains(full[j].id)) by {
                        if dels2.contains(full[j].id) {
                            let d = choose|d: int| 0 <= d < dels2.len() && dels2[d] == full[j].id;
                            assert(dels[d] == full[j].id);
                        }
                        if dels.contains(full[j].id) {
                            let d = choose|d: int| 0 <= d < dels.len() && dels[d] == full[j].id;
                            assert(dels2[d] == full[j].id);
                        }
                    }
                }
            }
            assert forall|c: int| 0 <= c < cuts.len() implies exists|j: int| 0 <= j < i + 1 && (#[trigger] full[j]).id == (
            #[trigger] cuts[c]).0 by {
                let j = choose|j: int| 0 <= j < i && (#[trigger] full[j]).id == cuts[c].0;
            }
            assert forall|d: int| 0 <= d < dels2.len() implies exists|j: int| 0 <= j < i + 1 && (#[trigger] full[j]).id == (
            #[trigger] dels2[d]) by {
                if d < dels.len() {
                    assert(dels2[d] == dels[d]);
                    let j = choose|j: int| 0 <= j < i && (#[trigger] full[j]).id == dels[d];
                } else {
                    assert(full[i].id == dels2[d]);
                }
            }
            assert(full[i].interval.overlaps_spec(r));
            lemma_removal_scan_outcome(full, r, i + 1, cuts, dels2, true);
        } else {
            let cut = e.interval.cut_spec(r);
            let cuts2 = cuts.push((e.id, cut));
            assert(cuts2.drop_last() =~= cuts);
            assert(cuts2[cuts.len() as int] == (e.id, cut));
            assert forall|j: int| 0 <= j < i + 1 implies removal_outcome(#[trigger] full[j], r, cuts2, dels) by {
                if j < i {
                    assert(full[j].id != e.id);
                }
            }
            assert forall|c: int| 0 <= c < cuts2.len() implies exists|j: int| 0 <= j < i + 1 && (#[trigger] full[j]).id == (
            #[trigger] cuts2[c]).0 by {
                if c < cuts.len() {
                    assert(cuts2[c] == cuts[c]);
                    let j = choose|j: int| 0 <= j < i && (#[trigger] full[j]).id == cuts[c].0;
                } else {
                    assert(full[i].id == cuts2[c].0);
                }
            }
            assert forall|d: int| 0 <= d < dels.len() implies exists|j: int| 0 <= j < i + 1 && (#[trigger] full[j]).id == (
            #[trigger] dels[d]) by {
                let j = choose|j: int| 0 <= j < i && (#[trigger] full[j]).id == dels[d];
            }
            assert(full[i].interval.overlaps_spec(r));
            lemma_removal_scan_outcome(full, r, i + 1, cuts2, dels, true);
        }
    }
}

/// Taking a window away from windows that lie apart and have distinct ids: the plan
/// touches something exactly when some window overlaps the taken-away one; once its cuts are
/// applied and its deletions made, the windows left lie apart and none overlaps the taken-away
/// window; the two parts of a split window lie within a window that held the taken-away one,
/// outside it.
pub proof fn lemma_removal_leaves_windows_apart(s: Seq<AvailabilityData>, r: Interval)
    requires
        windows_apart(s),
        ids_distinct(s),
    ensures
        ({
            let res = removal_scan(s, r, Seq::empty(), Seq::empty(), false);
            let after = apply_cuts(s, res.0).filter(not_listed(res.1));
            &&& res.3 == exists|k: int| 0 <= k < s.len() && (#[trigger] s[k]).interval.overlaps_spec(r)
            &&& windows_apart(after)
            &&& forall|k: int| 0 <= k < after.len() ==> !(#[trigger] after[k]).interval.overlaps_spec(r)
            &&& res.2 matches Some(parts) ==> exists|k: int|
                0 <= k < s.len() && (#[trigger] s[k]).interval.contains_spec(r) && s[k].interval.contains_spec(parts.0)
                    && s[k].interval.contains_spec(parts.1) && !parts.0.overlaps_spec(r) && !parts.1.overlaps_spec(r)
        }),
{
    assert(s.skip(0) =~= s);
    lemma_apart_windows_disjoint(s);
    lemma_removal_scan_outcome(s, r, 0, Seq::empty(), Seq::empty(), false);
    let res = removal_scan(s, r, Seq::empty(), Seq::empty(), false);
    let mapped = apply_cuts(s, res.0);
    let pred = not_listed(res.1);
    let after = mapped.filter(pred);
    lemma_apply_cuts_entries(s, res.0);
    // every kept entry is an ordered part of the entry at its position, outside `r`
    assert forall|k: int| 0 <= k < s.len() && !res.1.contains(#[trigger] s[k].id) implies {
        &&& mapped[k].id == s[k].id
        &&& mapped[k].interval.is_ordered()
        &&& s[k].interval.contains_spec(mapped[k].interval)
        &&& !mapped[k].interval.overlaps_spec(r)
    } by {
        assert(removal_outcome(s[k], r, res.0, res.1));
        assert(s[k].interval.is_ordered());
        if s[k].interval.overlaps_spec(r) && !s[k].interval.contains_spec(r) {
            crate::interval::lemma_cut_leaves_no_overlap(s[k].interval, r);
        }
    }
    // every entry of `after` comes from a kept position
    assert forall|a: int| 0 <= a < after.len() implies exists|k: int|
        0 <= k < s.len() && !res.1.contains(s[k].id) && #[trigger] after[a] == mapped[k] by {
        mapped.lemma_filter_pred(pred, a);
        assert(after.contains(after[a]));
        mapped.lemma_filter_contains_rev(pred, after[a]);
        let k = choose|k: int| 0 <= k < mapped.len() && mapped[k] == after[a];
        assert(mapped[k].id == s[k].id);
    }
    assert forall|a: int| 0 <= a < after.len() implies #[trigger] after[a].interval.is_ordered() by {
        let k = choose|k: int| 0 <= k < s.len() && !res.1.contains(s[k].id) && #[trigger] after[a] == mapped[k];
        assert(!res.1.contains(s[k].id));
    }
    assert forall|a: int| 0 <= a < after.len() implies !(#[trigger] after[a]).interval.overlaps_spec(r) by {
        let k = choose|k: int| 0 <= k < s.len() && !res.1.contains(s[k].id) && #[trigger] after[a] == mapped[k];
        assert(!res.1.contains(s[k].id));
    }
    assert forall|a: int, b: int|
        0 <= a < after.len() && 0 <= b < after.len() && after[a] != after[b] implies apart(
        #[trigger] after[a].interval,
        #[trigger] after[b].interval,
    ) by {
        let ka = choose|k: int| 0 <= k < s.len() && !res.1.contains(s[k].id) && #[trigger] after[a] == mapped[k];
        let kb = choose|k: int| 0 <= k < s.len() && !res.1.contains(s[k].id) && #[trigger] after[b] == mapped[k];
        assert(!res.1.contains(s[ka].id));
        assert(!res.1.contains(s[kb].id));
        assert(ka != kb);
        assert(s[ka].id != s[kb].id);
        assert(s[ka] != s[kb]);
        assert(apart(s[ka].interval, s[kb].interval));
        lemma_apart_parts(s[ka].interval, s[kb].interval, mapped[ka].interval, mapped[kb].interval);
    }
    if res.2 is Some {
        let parts = res.2.unwrap();
        let k = choose|k: int|
            0 <= k < s.len() && (#[trigger] s[k]).interval.contains_spec(r) && s[k].interval.overlaps_spec(r) && parts
                == s[k].interval.split_spec(r);
    }
}


/// The time `t` lies in the window (its start included, its end not).
pub open spec fn in_window(w: Interval, t: int) -> bool {
    w.start_time <= t && t < w.end_time
}

/// Some entry's window holds the time `t`.
pub open spec fn covers(s: Seq<AvailabilityData>, t: int) -> bool {
    exists|k: int| 0 <= k < s.len() && #[trigger] in_window(s[k].interval, t)
}

/// The windows once `w` is added at time `now` as availability is added, storing a new window
/// under `id`: a window that cannot be booked changes nothing; otherwise the walk of
/// `addition_scan` decides.
pub open spec fn with_added_window(s: Seq<AvailabilityData>, w: Interval, id: i32, now: i64) -> Seq<AvailabilityData> {
    if !crate::clock::is_valid_at_spec(w, now) {
        s
    } else {
        window_added(s, w, id)
    }
}

/// The windows once `w` is added, storing a new window under `id`: as `addition_scan` decides,
/// nothing changes, or the listed entries go and the merged window is stored.
pub open spec fn window_added(s: Seq<AvailabilityData>, w: Interval, id: i32) -> Seq<AvailabilityData> {
    let res = addition_scan(s, w, Seq::empty());
    if res.0 {
        s
    } else {
        let kept = s.filter(not_listed(res.1));
        if exists|k: int| 0 <= k < kept.len() && kept[k].id == id {
            kept.map_values(with_window(id, res.2))
        } else {
            kept.push(AvailabilityData { id, interval: res.2 })
        }
    }
}

/// Keeping some of the entries keeps their ids distinct, and keeps only entries that were there.
proof fn lemma_filter_keeps_ids_distinct(s: Seq<AvailabilityData>, p: spec_fn(AvailabilityData) -> bool)
    requires
        ids_distinct(s),
    ensures
        ids_distinct(s.filter(p)),
        forall|a: int| 0 <= a < s.filter(p).len() ==> s.contains(#[trigger] s.filter(p)[a]),
    decreases s.len(),
{
    reveal(Seq::filter);
    if s.len() > 0 {
        let prev = s.drop_last();
        assert forall|i: int, j: int| 0 <= i < prev.len() && 0 <= j < prev.len() && i != j implies #[trigger] prev[i].id
            != #[trigger] prev[j].id by {
            assert(prev[i] == s[i] && prev[j] == s[j]);
        }
        lemma_filter_keeps_ids_distinct(prev, p);
        let f = prev.filter(p);
        assert forall|a: int| 0 <= a < f.len() implies s.contains(#[trigger] f[a]) && f[a].id != s.last().id by {
            assert(prev.contains(f[a]));
            let k = choose|k: int| 0 <= k < prev.len() && prev[k] == f[a];
            assert(s[k] == prev[k]);
            assert(s[s.len() - 1] == s.last());
        }
        if p(s.last()) {
            let g = f.push(s.last());
            assert(s.filter(p) == g);
            assert forall|a: int| 0 <= a < g.len() implies s.contains(#[trigger] g[a]) by {
                if a < f.len() {
                    assert(g[a] == f[a]);
                } else {
                    assert(s[s.len() - 1] == s.last());
                }
            }
            assert forall|i: int, j: int| 0 <= i < g.len() && 0 <= j < g.len() && i != j implies #[trigger] g[i].id
                != #[trigger] g[j].id by {
                if i < f.len() && j < f.len() {
                    assert(g[i] == f[i] && g[j] == f[j]);
                } else if i < f.len() {
                    assert(g[i] == f[i]);
                } else if j < f.len() {
                    assert(g[j] == f[j]);
                }
            }
        } else {
            assert(s.filter(p) == f);
        }
    }
}

/// Adding an ordered window under an id no entry has keeps the windows apart and their ids
/// distinct.
pub proof fn lemma_window_added_keeps_apart(s: Seq<AvailabilityData>, w: Interval, id: i32)
    requires
        windows_apart(s),
        ids_distinct(s),
        w.is_ordered(),
        forall|k: int| 0 <= k < s.len() ==> (#[trigger] s[k]).id != id,
    ensures
        windows_apart(window_added(s, w, id)),
        ids_distinct(window_added(s, w, id)),
{
    let res = addition_scan(s, w, Seq::empty());
    lemma_addition_keeps_windows_apart(s, w, id);
    if !res.0 {
        let kept = s.filter(not_listed(res.1));
        lemma_filter_keeps_ids_distinct(s, not_listed(res.1));
        assert forall|k: int| 0 <= k < kept.len() implies (#[trigger] kept[k]).id != id by {
            assert(s.contains(kept[k]));
        }
        let all = kept.push(AvailabilityData { id, interval: res.2 });
        assert forall|i: int, j: int| 0 <= i < all.len() && 0 <= j < all.len() && i != j implies #[trigger] all[i].id
            != #[trigger] all[j].id by {
            if i < kept.len() {
                assert(all[i] == kept[i]);
            }
            if j < kept.len() {
                assert(all[j] == kept[j]);
            }
        }
    }
}

/// Windows that lie apart with distinct ids stay so when availability is added at time `now`
/// as an ordered window under a new id.
pub proof fn lemma_added_window_keeps_apart(s: Seq<AvailabilityData>, w: Interval, id: i32, now: i64)
    requires
        windows_apart(s),
        ids_distinct(s),
        w.is_ordered(),
        forall|k: int| 0 <= k < s.len() ==> (#[trigger] s[k]).id != id,
    ensures
        windows_apart(with_added_window(s, w, id, now)),
        ids_distinct(with_added_window(s, w, id, now)),
{
    lemma_window_added_keeps_apart(s, w, id);
}

/// Windows that lie apart with distinct ids stay so when any window is taken away and the
/// parts of a split window (which may have no length) are added back under new ids.
pub proof fn lemma_removal_keeps_apart(s: Seq<AvailabilityData>, r: Interval, now: i64, part_ids: (i32, i32))
    requires
        windows_apart(s),
        ids_distinct(s),
        ({
            let res = removal_scan(s, r, Seq::empty(), Seq::empty(), false);
            res.2 matches Some(parts) ==> {
                &&& part_ids.0 != part_ids.1
                &&& forall|k: int| 0 <= k < s.len() ==> (#[trigger] s[k]).id != part_ids.0 && s[k].id != part_ids.1
            }
        }),
    ensures
        ({
            let res = removal_scan(s, r, Seq::empty(), Seq::empty(), false);
            let after = after_removal(s, res.0, res.1, res.2, now, part_ids);
            windows_apart(after) && ids_distinct(after)
        }),
{
    lemma_removal_leaves_windows_apart(s, r);
    let res = removal_scan(s, r, Seq::empty(), Seq::empty(), false);
    let mapped = apply_cuts(s, res.0);
    let mid = mapped.filter(not_listed(res.1));
    lemma_apply_cuts_entries(s, res.0);
    assert(ids_distinct(mapped)) by {
        assert forall|i: int, j: int| 0 <= i < mapped.len() && 0 <= j < mapped.len() && i != j implies #[trigger] mapped[i].id
            != #[trigger] mapped[j].id by {
            assert(mapped[i].id == s[i].id && mapped[j].id == s[j].id);
        }
    }
    lemma_filter_keeps_ids_distinct(mapped, not_listed(res.1));
    if res.2 is Some {
        let parts = res.2.unwrap();
        let ke = choose|k: int|
            0 <= k < s.len() && (#[trigger] s[k]).interval.contains_spec(r) && s[k].interval.contains_spec(parts.0)
                && s[k].interval.contains_spec(parts.1) && !parts.0.overlaps_spec(r) && !parts.1.overlaps_spec(r);
        assert(s.skip(0) =~= s);
        lemma_apart_windows_disjoint(s);
        lemma_removal_scan_outcome(s, r, 0, Seq::empty(), Seq::empty(), false);
        assert(parts.0.is_ordered() && parts.1.is_ordered());
        assert forall|k: int| 0 <= k < mid.len() implies (#[trigger] mid[k]).id != part_ids.0 && mid[k].id != part_ids.1 by {
            assert(mapped.contains(mid[k]));
            let j = choose|j: int| 0 <= j < mapped.len() && mapped[j] == mid[k];
            assert(mapped[j].id == s[j].id);
        }
        lemma_added_window_keeps_apart(mid, parts.0, part_ids.0, now);
        let mid1 = with_added_window(mid, parts.0, part_ids.0, now);
        // the second part's id is new among the entries after the first part is added
        assert forall|k: int| 0 <= k < mid1.len() implies (#[trigger] mid1[k]).id != part_ids.1 by {
            if crate::clock::is_valid_at_spec(parts.0, now) {
                let res1 = addition_scan(mid, parts.0, Seq::empty());
                if !res1.0 {
                    let kept = mid.filter(not_listed(res1.1));
                    lemma_filter_keeps_ids_distinct(mid, not_listed(res1.1));
                    if k < kept.len() {
                        assert(mid1[k] == kept[k]);
                        assert(mid.contains(kept[k]));
                    }
                }
            }
        }
        lemma_added_window_keeps_apart(mid1, parts.1, part_ids.1, now);
    }
}


/// The windows once a removal's cuts and deletions are applied and the two parts of a split
/// window are added back at time `now`, under `part_ids`.
pub open spec fn after_removal(
    s: Seq<AvailabilityData>,
    cuts: Seq<(i32, Interval)>,
    deletions: Seq<i32>,
    split: Option<(Interval, Interval)>,
    now: i64,
    part_ids: (i32, i32),
) -> Seq<AvailabilityData> {
    let mid = apply_cuts(s, cuts).filter(not_listed(deletions));
    match split {
        None => mid,
        Some(parts) => with_added_window(with_added_window(mid, parts.0, part_ids.0, now), parts.1, part_ids.1, now),
    }
}

/// Filtering by an empty list keeps every entry.
proof fn lemma_filter_none_listed(s: Seq<AvailabilityData>)
    ensures
        s.filter(not_listed(Seq::empty())) == s,
    decreases s.len(),
{
    reveal(Seq::filter);
    if s.len() > 0 {
        lemma_filter_none_listed(s.drop_last());
        assert(!Seq::<i32>::empty().contains(s.last().id));
        assert(s.drop_last().push(s.last()) =~= s);
    } else {
        assert(s.filter(not_listed(Seq::empty())) =~= s);
    }
}

/// A window that no entry overlaps or touches is added as it is, and nothing is listed.
proof fn lemma_addition_scan_alone(s: Seq<AvailabilityData>, w: Interval, ids: Seq<i32>)
    requires
        forall|k: int| 0 <= k < s.len() ==> !(#[trigger] s[k]).interval.overlaps_spec(w) && !s[k].interval.touches_spec(w),
    ensures
        addition_scan(s, w, ids) == (false, ids, w),
    decreases s.len(),
{
    if s.len() > 0 {
        assert(!s[0].interval.overlaps_spec(w) && !s[0].interval.touches_spec(w));
        let rest = s.drop_first();
        assert forall|k: int| 0 <= k < rest.len() implies !(#[trigger] rest[k]).interval.overlaps_spec(w)
            && !rest[k].interval.touches_spec(w) by {
            assert(rest[k] == s[k + 1]);
        }
        lemma_addition_scan_alone(rest, w, ids);
    }
}

/// Adding a window that does not start after it ends, under a new id, keeps the windows from
/// starting after they end and the ids distinct; every id afterwards is the new one or was there.
proof fn lemma_window_added_keeps_ordered(s: Seq<AvailabilityData>, w: Interval, id: i32)
    requires
        windows_ordered(s),
        ids_distinct(s),
        w.is_ordered(),
        forall|k: int| 0 <= k < s.len() ==> (#[trigger] s[k]).id != id,
    ensures
        windows_ordered(window_added(s, w, id)),
        ids_distinct(window_added(s, w, id)),
        forall|a: int| 0 <= a < window_added(s, w, id).len() ==> (#[trigger] window_added(s, w, id)[a]).id == id
            || exists|k: int| 0 <= k < s.len() && s[k].id == window_added(s, w, id)[a].id,
{
    let res = addition_scan(s, w, Seq::empty());
    lemma_addition_scan_covers(s, w, Seq::empty());
    if !res.0 {
        let kept = s.filter(not_listed(res.1));
        lemma_filter_keeps_ids_distinct(s, not_listed(res.1));
        assert forall|k: int| 0 <= k < kept.len() implies (#[trigger] kept[k]).id != id && kept[k].interval.is_ordered()
            && exists|j: int| 0 <= j < s.len() && s[j] == kept[k] by {
            assert(s.contains(kept[k]));
        }
        let all = kept.push(AvailabilityData { id, interval: res.2 });
        assert(window_added(s, w, id) == all);
        assert forall|i: int, j: int| 0 <= i < all.len() && 0 <= j < all.len() && i != j implies #[trigger] all[i].id
            != #[trigger] all[j].id by {
            if i < kept.len() {
                assert(all[i] == kept[i]);
            }
            if j < kept.len() {
                assert(all[j] == kept[j]);
            }
        }
        assert forall|i: int| 0 <= i < all.len() implies #[trigger] all[i].interval.is_ordered() by {
            if i < kept.len() {
                assert(all[i] == kept[i]);
            }
        }
        assert forall|a: int| 0 <= a < all.len() implies (#[trigger] all[a]).id == id || exists|k: int|
            0 <= k < s.len() && s[k].id == all[a].id by {
            if a < kept.len() {
                assert(all[a] == kept[a]);
                let j = choose|j: int| 0 <= j < s.len() && s[j] == kept[a];
            }
        }
    }
}

/// Taking a window away, with the parts of a split window added back, takes away exactly that
/// window: for windows that do not overlap (they may touch, and may have no length) and have
/// distinct ids, when the parts may be booked and get new ids, a time is covered afterwards
/// exactly when it was covered before and lies outside the taken-away window.
pub proof fn lemma_removal_takes_away_exactly(s: Seq<AvailabilityData>, r: Interval, now: i64, part_ids: (i32, i32))
    requires
        windows_disjoint(s),
        ids_distinct(s),
        ({
            let res = removal_scan(s, r, Seq::empty(), Seq::empty(), false);
            res.2 matches Some(parts) ==> {
                &&& crate::clock::is_valid_at_spec(parts.0, now)
                &&& crate::clock::is_valid_at_spec(parts.1, now)
                &&& part_ids.0 != part_ids.1
                &&& forall|k: int| 0 <= k < s.len() ==> (#[trigger] s[k]).id != part_ids.0 && s[k].id != part_ids.1
            }
        }),
    ensures
        ({
            let res = removal_scan(s, r, Seq::empty(), Seq::empty(), false);
            let after = after_removal(s, res.0, res.1, res.2, now, part_ids);
            forall|t: int| covers(after, t) <==> covers(s, t) && !in_window(r, t)
        }),
{
    assert(s.skip(0) =~= s);
    lemma_removal_scan_outcome(s, r, 0, Seq::empty(), Seq::empty(), false);
    let res = removal_scan(s, r, Seq::empty(), Seq::empty(), false);
    let mapped = apply_cuts(s, res.0);
    let pred = not_listed(res.1);
    let mid = mapped.filter(pred);
    lemma_apply_cuts_entries(s, res.0);
    // every entry of `mid` comes from a kept position
    assert forall|a: int| 0 <= a < mid.len() implies exists|k: int|
        0 <= k < s.len() && !res.1.contains(s[k].id) && #[trigger] mid[a] == mapped[k] by {
        mapped.lemma_filter_pred(pred, a);
        assert(mid.contains(mid[a]));
        mapped.lemma_filter_contains_rev(pred, mid[a]);
        let k = choose|k: int| 0 <= k < mapped.len() && mapped[k] == mid[a];
        assert(mapped[k].id == s[k].id);
    }
    // every kept position is in `mid`
    assert forall|k: int| 0 <= k < s.len() && !res.1.contains(#[trigger] s[k].id) implies mid.contains(mapped[k]) by {
        assert(mapped[k].id == s[k].id);
        mapped.lemma_filter_contains(pred, k);
    }
    if res.2 is None {
        assert forall|t: int| covers(mid, t) <==> covers(s, t) && !in_window(r, t) by {
            if covers(mid, t) {
                let a = choose|a: int| 0 <= a < mid.len() && #[trigger] in_window(mid[a].interval, t);
                let k = choose|k: int| 0 <= k < s.len() && !res.1.contains(s[k].id) && #[trigger] mid[a] == mapped[k];
                assert(removal_outcome(s[k], r, res.0, res.1));
                assert(in_window(s[k].interval, t));
            }
            if covers(s, t) && !in_window(r, t) {
                let k = choose|k: int| 0 <= k < s.len() && #[trigger] in_window(s[k].interval, t);
                assert(removal_outcome(s[k], r, res.0, res.1));
                assert(!res.1.contains(s[k].id));
                assert(mid.contains(mapped[k]));
                let a = choose|a: int| 0 <= a < mid.len() && mid[a] == mapped[k];
                assert(in_window(mid[a].interval, t));
            }
        }
    } else {
        let parts = res.2.unwrap();
        let ke = choose|k: int|
            0 <= k < s.len() && (#[trigger] s[k]).interval.contains_spec(r) && s[k].interval.overlaps_spec(r) && parts
                == s[k].interval.split_spec(r);
        let e = s[ke].interval;
        // every other entry does not overlap the split window, so not `r`, and is kept as it was
        assert forall|k: int| 0 <= k < s.len() && k != ke implies {
            &&& !(#[trigger] s[k]).interval.overlaps_spec(e)
            &&& !s[k].interval.overlaps_spec(r)
            &&& !res.1.contains(s[k].id)
            &&& mapped[k] == s[k]
        } by {
            assert(s[k].id != s[ke].id);
            assert(!s[k].interval.overlaps_spec(s[ke].interval));
            assert(removal_outcome(s[k], r, res.0, res.1));
        }
        assert(removal_outcome(s[ke], r, res.0, res.1));
        assert(res.1.contains(s[ke].id));
        // the entries of `mid` are the other entries
        assert forall|a: int| 0 <= a < mid.len() implies exists|k: int|
            0 <= k < s.len() && k != ke && #[trigger] mid[a] == s[k] by {
            let k = choose|k: int| 0 <= k < s.len() && !res.1.contains(s[k].id) && #[trigger] mid[a] == mapped[k];
        }
        let (pa, pb) = parts;
        lemma_filter_keeps_ids_distinct(mapped, pred);
        assert(ids_distinct(mapped)) by {
            assert forall|i: int, j: int| 0 <= i < mapped.len() && 0 <= j < mapped.len() && i != j implies #[trigger] mapped[i].id
                != #[trigger] mapped[j].id by {
                assert(mapped[i].id == s[i].id && mapped[j].id == s[j].id);
            }
        }
        lemma_filter_keeps_ids_distinct(mapped, pred);
        assert forall|a: int| 0 <= a < mid.len() implies (#[trigger] mid[a]).interval.is_ordered() && mid[a].id != part_ids.0
            && mid[a].id != part_ids.1 by {
            let k = choose|k: int| 0 <= k < s.len() && k != ke && #[trigger] mid[a] == s[k];
        }
        // what `mid` covers is what the other entries cover
        assert forall|t: int| covers(mid, t) <==> covers(s, t) && !in_window(e, t) by {
            if covers(mid, t) {
                let a = choose|a: int| 0 <= a < mid.len() && #[trigger] in_window(mid[a].interval, t);
                let k = choose|k: int| 0 <= k < s.len() && k != ke && #[trigger] mid[a] == s[k];
                assert(in_window(s[k].interval, t));
                assert(!s[k].interval.overlaps_spec(e));
            }
            if covers(s, t) && !in_window(e, t) {
                let k = choose|k: int| 0 <= k < s.len() && #[trigger] in_window(s[k].interval, t);
                assert(k != ke);
                assert(mid.contains(mapped[k]));
                let a = choose|a: int| 0 <= a < mid.len() && mid[a] == mapped[k];
                assert(in_window(mid[a].interval, t));
            }
        }
        // the first part is added
        lemma_window_added_covers(mid, pa, part_ids.0);
        lemma_window_added_keeps_ordered(mid, pa, part_ids.0);
        let mid1 = window_added(mid, pa, part_ids.0);
        assert(with_added_window(mid, pa, part_ids.0, now) == mid1);
        assert forall|a: int| 0 <= a < mid1.len() implies (#[trigger] mid1[a]).id != part_ids.1 by {
            if mid1[a].id != part_ids.0 {
                let k = choose|k: int| 0 <= k < mid.len() && mid[k].id == mid1[a].id;
            }
        }
        // then the second
        lemma_window_added_covers(mid1, pb, part_ids.1);
        let after = window_added(mid1, pb, part_ids.1);
        assert(after_removal(s, res.0, res.1, res.2, now, part_ids) == after);
        assert forall|t: int| covers(after, t) <==> covers(s, t) && !in_window(r, t) by {
            if covers(s, t) && in_window(e, t) {
                let k = choose|k: int| 0 <= k < s.len() && #[trigger] in_window(s[k].interval, t);
                if k != ke {
                    assert(!s[k].interval.overlaps_spec(e));
                }
            }
            if in_window(e, t) {
                assert(covers(s, t)) by {
                    assert(in_window(s[ke].interval, t));
                }
            }
        }
    }
}


/// The windows once each row is added under its own id, in the order read, starting from none:
/// what `plan_addition` and `apply_availability_addition` make of the rows one after another.
pub open spec fn windows_read(rows: Seq<AvailabilityData>) -> Seq<AvailabilityData>
    decreases rows.len(),
{
    if rows.len() == 0 {
        Seq::empty()
    } else {
        window_added(windows_read(rows.drop_last()), rows.last().interval, rows.last().id)
    }
}

/// Windows read back in any order are put back as they were: rows whose windows lie apart under
/// distinct ids are each added alone, so the windows read are the rows, in the order read.
pub proof fn lemma_windows_reload(rows: Seq<AvailabilityData>)
    requires
        windows_apart(rows),
        ids_distinct(rows),
    ensures
        windows_read(rows) == rows,
    decreases rows.len(),
{
    if rows.len() > 0 {
        let prev = rows.drop_last();
        let last = rows.last();
        assert(rows[rows.len() - 1] == last);
        assert forall|i: int, j: int| 0 <= i < prev.len() && 0 <= j < prev.len() && i != j implies #[trigger] prev[i].id
            != #[trigger] prev[j].id by {
            assert(prev[i] == rows[i] && prev[j] == rows[j]);
        }
        assert forall|i: int| 0 <= i < prev.len() implies #[trigger] prev[i].interval.is_ordered() by {
            assert(prev[i] == rows[i]);
        }
        assert forall|i: int, j: int| 0 <= i < prev.len() && 0 <= j < prev.len() && prev[i] != prev[j] implies apart(
            #[trigger] prev[i].interval,
            #[trigger] prev[j].interval,
        ) by {
            assert(prev[i] == rows[i] && prev[j] == rows[j]);
        }
        lemma_windows_reload(prev);
        assert forall|k: int| 0 <= k < prev.len() implies !(#[trigger] prev[k]).interval.overlaps_spec(last.interval)
            && !prev[k].interval.touches_spec(last.interval) && prev[k].id != last.id by {
            assert(prev[k] == rows[k]);
            assert(rows[k].id != rows[rows.len() - 1].id);
            assert(apart(rows[k].interval, rows[rows.len() - 1].interval));
        }
        lemma_addition_scan_alone(prev, last.interval, Seq::empty());
        lemma_filter_none_listed(prev);
        assert(window_added(prev, last.interval, last.id) == prev.push(last));
        assert(prev.push(last) =~= rows);
    }
}

/// Some entry before position `n` whose id is listed has the time `t` in its window.
pub open spec fn listed_cover(full: Seq<AvailabilityData>, ids: Seq<i32>, n: int, t: int) -> bool {
    exists|j: int| 0 <= j < n && ids.contains(full[j].id) && #[trigger] in_window(full[j].interval, t)
}

/// Merging two ordered windows that overlap or touch covers exactly the times either covers.
proof fn lemma_merge_covers(cur: Interval, e: Interval)
    requires
        cur.is_ordered(),
        e.is_ordered(),
        cur.overlaps_spec(e) || cur.touches_spec(e) || e.overlaps_spec(cur) || e.touches_spec(cur),
    ensures
        forall|t: int| #[trigger] in_window(cur.merge_spec(e), t) <==> in_window(cur, t) || in_window(e, t),
{
}

/// While an ordered window is added to entries with distinct ids and ordered windows, the growing
/// window covers exactly the times of the added window and of the entries listed so far.
proof fn lemma_addition_scan_union(full: Seq<AvailabilityData>, i: int, w: Interval, cur: Interval, ids: Seq<i32>)
    requires
        windows_ordered(full),
        ids_distinct(full),
        0 <= i <= full.len(),
        cur.is_ordered(),
        forall|t: int| #[trigger] in_window(cur, t) <==> in_window(w, t) || listed_cover(full, ids, i, t),
        forall|x: i32| #[trigger] ids.contains(x) ==> exists|j: int| 0 <= j < i && full[j].id == x,
    ensures
        ({
            let res = addition_scan(full.skip(i), cur, ids);
            !res.0 ==> forall|t: int|
                #[trigger] in_window(res.2, t) <==> in_window(w, t) || listed_cover(full, res.1, full.len() as int, t)
        }),
    decreases full.len() - i,
{
    if i == full.len() {
        assert(full.skip(i).len() == 0);
        assert(addition_scan(full.skip(i), cur, ids) == (false, ids, cur));
        assert forall|t: int| #[trigger] in_window(cur, t) <==> in_window(w, t) || listed_cover(
            full,
            ids,
            full.len() as int,
            t,
        ) by {}
    } else {
        let e = full[i];
        assert(full.skip(i)[0] == e);
        assert(full.skip(i).drop_first() =~= full.skip(i + 1));
        assert(e.interval.is_ordered());
        // no listed id belongs to an entry from `i` on
        assert(!ids.contains(e.id)) by {
            if ids.contains(e.id) {
                let j = choose|j: int| 0 <= j < i && full[j].id == e.id;
            }
        }
        if !e.interval.overlaps_spec(cur) {
            if e.interval.touches_spec(cur) {
                let cur2 = cur.merge_spec(e.interval);
                let ids2 = ids.push(e.id);
                lemma_merge_covers(cur, e.interval);
                assert forall|x: i32| #[trigger] ids2.contains(x) implies exists|j: int| 0 <= j < i + 1 && full[j].id == x by {
                    let k = choose|k: int| 0 <= k < ids2.len() && ids2[k] == x;
                    if k < ids.len() {
                        assert(ids[k] == x);
                        assert(ids.contains(x));
                    }
                }
                assert forall|t: int| #[trigger] in_window(cur2, t) <==> in_window(w, t) || listed_cover(full, ids2, i + 1, t) by {
                    lemma_listed_cover_push(full, ids, i, e.id, t);
                }
                lemma_addition_scan_union(full, i + 1, w, cur2, ids2);
                assert(addition_scan(full.skip(i), cur, ids) == addition_scan(full.skip(i + 1), cur2, ids2));
            } else {
                assert forall|t: int| #[trigger] in_window(cur, t) <==> in_window(w, t) || listed_cover(full, ids, i + 1, t) by {
                    lemma_listed_cover_skip(full, ids, i, t);
                }
                lemma_addition_scan_union(full, i + 1, w, cur, ids);
                assert(addition_scan(full.skip(i), cur, ids) == addition_scan(full.skip(i + 1), cur, ids));
            }
        } else if e.interval.contains_spec(cur) {
        } else {
            let ids1 = if cur.contains_spec(e.interval) { ids.push(e.id) } else { ids };
            let cur2 = cur.merge_spec(e.interval);
            let ids2 = ids1.push(e.id);
            lemma_merge_covers(cur, e.interval);
            assert forall|x: i32| #[trigger] ids2.contains(x) implies exists|j: int| 0 <= j < i + 1 && full[j].id == x by {
                let k = choose|k: int| 0 <= k < ids2.len() && ids2[k] == x;
                if k < ids.len() {
                    assert(ids1[k] == ids[k]);
                    assert(ids[k] == x);
                    assert(ids.contains(x));
                }
            }
            let ids_e = ids.push(e.id);
            assert forall|x: i32| ids_e.contains(x) <==> ids2.contains(x) by {
                if ids_e.contains(x) {
                    let k = choose|k: int| 0 <= k < ids_e.len() && ids_e[k] == x;
                    if k < ids.len() {
                        assert(ids1[k] == ids[k]);
                        assert(ids2[k] == x);
                    } else {
                        assert(ids2[ids1.len() as int] == x);
                    }
                }
                if ids2.contains(x) {
                    let k = choose|k: int| 0 <= k < ids2.len() && ids2[k] == x;
                    if k < ids.len() {
                        assert(ids1[k] == ids[k]);
                        assert(ids_e[k] == x);
                    } else {
                        assert(x == e.id);
                        assert(ids_e[ids.len() as int] == x);
                    }
                }
            }
            assert forall|t: int| #[trigger] in_window(cur2, t) <==> in_window(w, t) || listed_cover(full, ids2, i + 1, t) by {
                lemma_listed_cover_push(full, ids, i, e.id, t);
                lemma_listed_cover_same_ids(full, ids_e, ids2, i + 1, t);
            }
            lemma_addition_scan_union(full, i + 1, w, cur2, ids2);
            assert(addition_scan(full.skip(i), cur, ids) == addition_scan(full.skip(i + 1), cur2, ids2));
        }
    }
}

/// Listing the entry at position `i` adds its window to what the listed entries cover.
proof fn lemma_listed_cover_push(full: Seq<AvailabilityData>, ids: Seq<i32>, i: int, id: i32, t: int)
    requires
        ids_distinct(full),
        0 <= i < full.len(),
        full[i].id == id,
        !ids.contains(id),
    ensures
        listed_cover(full, ids.push(id), i + 1, t) <==> listed_cover(full, ids, i, t) || in_window(full[i].interval, t),
{
    let ids2 = ids.push(id);
    assert(ids2[ids.len() as int] == id);
    if listed_cover(full, ids2, i + 1, t) {
        let j = choose|j: int| 0 <= j < i + 1 && ids2.contains(full[j].id) && #[trigger] in_window(full[j].interval, t);
        if j < i {
            assert(full[j].id != id);
            let k = choose|k: int| 0 <= k < ids2.len() && ids2[k] == full[j].id;
            assert(k < ids.len());
            assert(ids[k] == full[j].id);
            assert(ids.contains(full[j].id));
        }
    }
    if listed_cover(full, ids, i, t) {
        let j = choose|j: int| 0 <= j < i && ids.contains(full[j].id) && #[trigger] in_window(full[j].interval, t);
        let k = choose|k: int| 0 <= k < ids.len() && ids[k] == full[j].id;
        assert(ids2[k] == full[j].id);
        assert(ids2.contains(full[j].id));
    }
    if in_window(full[i].interval, t) {
        assert(ids2.contains(full[i].id));
    }
}

/// An entry whose id is not listed adds nothing to what the listed entries cover.
proof fn lemma_listed_cover_skip(full: Seq<AvailabilityData>, ids: Seq<i32>, i: int, t: int)
    requires
        0 <= i < full.len(),
        !ids.contains(full[i].id),
    ensures
        listed_cover(full, ids, i + 1, t) <==> listed_cover(full, ids, i, t),
{
    if listed_cover(full, ids, i + 1, t) {
        let j = choose|j: int| 0 <= j < i + 1 && ids.contains(full[j].id) && #[trigger] in_window(full[j].interval, t);
        assert(j != i);
    }
}

/// Two lists that hold the same ids list the same entries.
proof fn lemma_listed_cover_same_ids(full: Seq<AvailabilityData>, a: Seq<i32>, b: Seq<i32>, n: int, t: int)
    requires
        forall|x: i32| a.contains(x) <==> b.contains(x),
    ensures
        listed_cover(full, a, n, t) <==> listed_cover(full, b, n, t),
{
    if listed_cover(full, a, n, t) {
        let j = choose|j: int| 0 <= j < n && a.contains(full[j].id) && #[trigger] in_window(full[j].interval, t);
        assert(b.contains(full[j].id));
    }
    if listed_cover(full, b, n, t) {
        let j = choose|j: int| 0 <= j < n && b.contains(full[j].id) && #[trigger] in_window(full[j].interval, t);
        assert(a.contains(full[j].id));
    }
}

/// Adding a window that does not start after it ends, under a new id, to windows with distinct
/// ids that do not start after they end adds exactly its time: a time is covered afterwards exactly when it was covered before or lies
/// in the added window. When a merge happens, the merged window covers the added window and
/// the windows it replaces, and nothing else.
pub proof fn lemma_window_added_covers(s: Seq<AvailabilityData>, w: Interval, id: i32)
    requires
        windows_ordered(s),
        ids_distinct(s),
        w.is_ordered(),
        forall|k: int| 0 <= k < s.len() ==> (#[trigger] s[k]).id != id,
    ensures
        forall|t: int| covers(window_added(s, w, id), t) <==> covers(s, t) || in_window(w, t),
        ({
            let res = addition_scan(s, w, Seq::empty());
            !res.0 ==> forall|t: int|
                #[trigger] in_window(res.2, t) <==> in_window(w, t) || listed_cover(s, res.1, s.len() as int, t)
        }),
{
    let res = addition_scan(s, w, Seq::empty());
    assert(s.skip(0) =~= s);
    lemma_addition_scan_union(s, 0, w, w, Seq::empty());
    lemma_addition_scan_covers(s, w, Seq::empty());
    if res.0 {
        assert forall|t: int| covers(window_added(s, w, id), t) <==> covers(s, t) || in_window(w, t) by {
            if in_window(w, t) {
                let k = choose|k: int| 0 <= k < s.len() && (#[trigger] s[k]).interval.contains_spec(w);
                assert(in_window(s[k].interval, t));
            }
        }
    } else {
        let pred = not_listed(res.1);
        let kept = s.filter(pred);
        lemma_filter_keeps_ids_distinct(s, pred);
        assert forall|k: int| 0 <= k < kept.len() implies (#[trigger] kept[k]).id != id by {
            assert(s.contains(kept[k]));
        }
        let n = AvailabilityData { id, interval: res.2 };
        let all = kept.push(n);
        assert(window_added(s, w, id) == all);
        assert forall|t: int| covers(all, t) <==> covers(s, t) || in_window(w, t) by {
            if covers(all, t) {
                let a = choose|a: int| 0 <= a < all.len() && #[trigger] in_window(all[a].interval, t);
                if a < kept.len() {
                    assert(all[a] == kept[a]);
                    assert(s.contains(kept[a]));
                    let k = choose|k: int| 0 <= k < s.len() && s[k] == kept[a];
                    assert(in_window(s[k].interval, t));
                } else {
                    assert(all[a] == n);
                    if listed_cover(s, res.1, s.len() as int, t) {
                        let j = choose|j: int|
                            0 <= j < s.len() && res.1.contains(s[j].id) && #[trigger] in_window(s[j].interval, t);
                    }
                }
            }
            if covers(s, t) {
                let k = choose|k: int| 0 <= k < s.len() && #[trigger] in_window(s[k].interval, t);
                if res.1.contains(s[k].id) {
                    assert(listed_cover(s, res.1, s.len() as int, t));
                    assert(all[kept.len() as int] == n);
                    assert(in_window(all[kept.len() as int].interval, t));
                } else {
                    s.lemma_filter_contains(pred, k);
                    let a = choose|a: int| 0 <= a < kept.len() && kept[a] == s[k];
                    assert(all[a] == kept[a]);
                    assert(in_window(all[a].interval, t));
                }
            }
            if in_window(w, t) {
                assert(all[kept.len() as int] == n);
                assert(in_window(all[kept.len() as int].interval, t));
            }
        }
    }
}

fn contains_id(ids: &Vec<i32>, id: i32) -> (r: bool)
    ensures
        r == ids@.contains(id),
{
    let mut i: usize = 0;
    while i < ids.len()
        invariant
            i <= ids@.len(),
            forall|j: int| 0 <= j < i ==> ids@[j] != id,
        decreases ids@.len() - i,
    {
        if ids[i] == id {
            assert(ids@[i as int] == id);
            return true;
        }
        i += 1;
    }
    false
}

impl VehicleData {
    /// Decides what adding `new_interval` to the vehicle's availability does.
    pub fn plan_addition(&self, new_interval: &Interval) -> (r: AvailabilityAddition)
        ensures
            r.matches_scan(addition_scan(self.availability@, *new_interval, Seq::empty())),
    {
        let ghost s = self.availability@;
        let mut cur = *new_interval;
        let mut ids: Vec<i32> = Vec::new();
        let mut i: usize = 0;
        assert(s.skip(0) =~= s);
        while i < self.availability.len()
            invariant
                s == self.availability@,
                i <= s.len(),
                addition_scan(s.skip(i as int), cur, ids@) == addition_scan(s, *new_interval, Seq::empty()),
            decreases s.len() - i,
        {
            let e = self.availability[i];
            assert(s.skip(i as int)[0] == e);
            assert(s.skip(i as int).drop_first() =~= s.skip(i + 1));
            if !e.interval.overlaps(&cur) {
                if e.interval.touches(&cur) {
                    ids.push(e.id);
                    cur.merge(&e.interval);
                }
            } else if e.interval.contains(&cur) {
                return AvailabilityAddition::Covered;
            } else {
                if cur.contains(&e.interval) {
                    ids.push(e.id);
                }
                ids.push(e.id);
                cur.merge(&e.interval);
            }
            i += 1;
        }
        AvailabilityAddition::Merge { remove_ids: ids, merged: cur }
    }

    /// Decides what taking `to_remove` away from the vehicle's availability does.
    pub fn plan_removal(&self, to_remove: &Interval) -> (r: AvailabilityRemoval)
        ensures
            (r.cuts@, r.deletions@, r.split, r.touched) == removal_scan(
                self.availability@,
                *to_remove,
                Seq::empty(),
                Seq::empty(),
                false,
            ),
    {
        let ghost s = self.availability@;
        let mut cuts: Vec<(i32, Interval)> = Vec::new();
        let mut deletions: Vec<i32> = Vec::new();
        let mut touched = false;
        let mut i: usize = 0;
        assert(s.skip(0) =~= s);
        while i < self.availability.len()
            invariant
                s == self.availability@,
                i <= s.len(),
                removal_scan(s.skip(i as int), *to_remove, cuts@, deletions@, touched) == removal_scan(
                    s,
                    *to_remove,
                    Seq::empty(),
                    Seq::empty(),
                    false,
                ),
            decreases s.len() - i,
        {
            let e = self.availability[i];
            assert(s.skip(i as int)[0] == e);
            assert(s.skip(i as int).drop_first() =~= s.skip(i + 1));
            if e.interval.overlaps(to_remove) {
                touched = true;
                if e.interval.contains(to_remove) {
                    deletions.push(e.id);
                    let split = e.interval.split(to_remove);
                    return AvailabilityRemoval { cuts, deletions, split: Some(split), touched };
                }
                if to_remove.contains(&e.interval) {
                    deletions.push(e.id);
                } else {
                    let mut left = e.interval;
                    left.cut(to_remove);
                    cuts.push((e.id, left));
                }
            }
            i += 1;
        }
        AvailabilityRemoval { cuts, deletions, split: None, touched }
    }

    /// Whether an entry has this id.
    pub fn has_availability(&self, id: i32) -> (r: bool)
        ensures
            r == exists|k: int| 0 <= k < self.availability@.len() && self.availability@[k].id == id,
    {
        let mut i: usize = 0;
        while i < self.availability.len()
            invariant
                i <= self.availability@.len(),
                forall|j: int| 0 <= j < i ==> self.availability@[j].id != id,
            decreases self.availability@.len() - i,
        {
            if self.availability[i].id == id {
                return true;
            }
            i += 1;
        }
        false
    }

    /// Removes every entry whose id is listed; the others keep their order.
    pub fn remove_availability_entries(&mut self, ids: &Vec<i32>)
        ensures
            final(self).availability@ == old(self).availability@.filter(not_listed(ids@)),
            final(self).id == old(self).id,
            final(self).license_plate == old(self).license_plate,
            final(self).company == old(self).company,
            final(self).seats == old(self).seats,
            final(self).wheelchair_capacity == old(self).wheelchair_capacity,
            final(self).storage_space == old(self).storage_space,
            final(self).tours == old(self).tours,
    {
        let ghost s = self.availability@;
        let mut kept: Vec<AvailabilityData> = Vec::new();
        let mut i: usize = 0;
        assert(s.take(0).filter(not_listed(ids@)) =~= Seq::<AvailabilityData>::empty()) by {
            reveal(Seq::filter);
        }
        while i < self.availability.len()
            invariant
                s == self.availability@,
                i <= s.len(),
                kept@ == s.take(i as int).filter(not_listed(ids@)),
            decreases s.len() - i,
        {
            let e = self.availability[i];
            assert(s.take(i + 1) =~= s.take(i as int).push(e));
            proof {
                s.take(i as int).lemma_filter_push(e, not_listed(ids@));
            }
            if !contains_id(ids, e.id) {
                kept.push(e);
            }
            i += 1;
        }
        assert(s.take(s.len() as int) =~= s);
        self.availability = kept;
    }

    /// Gives the entry with this id the window `interval`.
    pub fn set_availability_interval(&mut self, id: i32, interval: Interval)
        ensures
            final(self).availability@ == old(self).availability@.map_values(with_window(id, interval)),
            final(self).id == old(self).id,
            final(self).license_plate == old(self).license_plate,
            final(self).company == old(self).company,
            final(self).seats == old(self).seats,
            final(self).wheelchair_capacity == old(self).wheelchair_capacity,
            final(self).storage_space == old(self).storage_space,
            final(self).tours == old(self).tours,
    {
        let ghost s = self.availability@;
        let mut i: usize = 0;
        while i < self.availability.len()
            invariant
                s.len() == self.availability@.len(),
                i <= s.len(),
                forall|j: int| 0 <= j < i ==> self.availability@[j] == with_window(id, interval)(s[j]),
                forall|j: int| i <= j < s.len() ==> self.availability@[j] == s[j],
                self.id == old(self).id,
                self.license_plate == old(self).license_plate,
                self.company == old(self).company,
                self.seats == old(self).seats,
                self.wheelchair_capacity == old(self).wheelchair_capacity,
                self.storage_space == old(self).storage_space,
                self.tours == old(self).tours,
                s == old(self).availability@,
            decreases s.len() - i,
        {
            if self.availability[i].id == id {
                self.availability.set(i, AvailabilityData { id, interval });
            }
            i += 1;
        }
        assert(self.availability@ =~= s.map_values(with_window(id, interval)));
    }

    /// Stores `interval` under `id`. A new id is appended and answered with `Created`; an id
    /// that is already there gets the new window and is answered with `InternalServerError`.
    pub fn insert_availability_entry(&mut self, id: i32, interval: Interval) -> (r: Status)
        ensures
            (exists|k: int| 0 <= k < old(self).availability@.len() && old(self).availability@[k].id == id) ==> {
                &&& r == Status::InternalServerError
                &&& final(self).availability@ == old(self).availability@.map_values(with_window(id, interval))
            },
            !(exists|k: int| 0 <= k < old(self).availability@.len() && old(self).availability@[k].id == id) ==> {
                &&& r == Status::Created
                &&& final(self).availability@ == old(self).availability@.push(AvailabilityData { id, interval })
            },
            final(self).id == old(self).id,
            final(self).license_plate == old(self).license_plate,
            final(self).company == old(self).company,
            final(self).seats == old(self).seats,
            final(self).wheelchair_capacity == old(self).wheelchair_capacity,
            final(self).storage_space == old(self).storage_space,
            final(self).tours == old(self).tours,
    {
        if self.has_availability(id) {
            self.set_availability_interval(id, interval);
            Status::InternalServerError
        } else {
            self.availability.push(AvailabilityData { id, interval });
            Status::Created
        }
    }
}

/// Two entries at different positions of the list have windows that overlap.
pub open spec fn windows_clash(a: Seq<AvailabilityData>) -> bool {
    exists|i: int, j: int|
        0 <= i < a.len() && 0 <= j < a.len() && i != j && (#[trigger] a[i]).interval.overlaps_spec(
            (#[trigger] a[j]).interval,
        )
}

/// Some vehicle has two different availability windows that overlap.
pub open spec fn some_windows_overlap(vs: Seq<VehicleData>) -> bool {
    exists|v: int| 0 <= v < vs.len() && windows_clash((#[trigger] vs[v]).availability@)
}

impl Data {
    /// Whether some vehicle has two availability entries whose windows overlap; windows kept
    /// apart never do.
    pub fn do_intervals_overlap(&self) -> (r: bool)
        ensures
            r == some_windows_overlap(self.vehicles@),
    {
        let mut v: usize = 0;
        while v < self.vehicles.len()
            invariant
                v <= self.vehicles@.len(),
                forall|k: int| 0 <= k < v ==> !windows_clash((#[trigger] self.vehicles@[k]).availability@),
            decreases self.vehicles@.len() - v,
        {
            let a = &self.vehicles[v].availability;
            let mut i: usize = 0;
            while i < a.len()
                invariant
                    v < self.vehicles@.len(),
                    a@ == self.vehicles@[v as int].availability@,
                    forall|k: int| 0 <= k < v ==> !windows_clash((#[trigger] self.vehicles@[k]).availability@),
                    i <= a@.len(),
                    forall|x: int, y: int|
                        0 <= x < i && 0 <= y < a@.len() && x != y ==> !(#[trigger] a@[x]).interval.overlaps_spec(
                            (#[trigger] a@[y]).interval,
                        ),
                decreases a@.len() - i,
            {
                let mut j: usize = 0;
                while j < a.len()
                    invariant
                        v < self.vehicles@.len(),
                        a@ == self.vehicles@[v as int].availability@,
                        i < a@.len(),
                        j <= a@.len(),
                        forall|x: int, y: int|
                            0 <= x < i && 0 <= y < a@.len() && x != y ==> !(#[trigger] a@[x]).interval.overlaps_spec(
                                (#[trigger] a@[y]).interval,
                            ),
                        forall|y: int|
                            0 <= y < j && y != i ==> !a@[i as int].interval.overlaps_spec((#[trigger] a@[y]).interval),
                    decreases a@.len() - j,
                {
                    if i != j && a[i].interval.overlaps(&a[j].interval) {
                        assert(windows_clash(a@));
                        assert(windows_clash(self.vehicles@[v as int].availability@));
                        return true;
                    }
                    j += 1;
                }
                i += 1;
            }
            assert(!windows_clash(a@));
            v += 1;
        }
        false
    }
}

/// Windows kept apart never overlap: for vehicles whose availability entries have distinct ids
/// and windows that lie apart, no vehicle has two entries whose windows overlap.
pub proof fn lemma_apart_windows_never_overlap(vs: Seq<VehicleData>)
    requires
        forall|v: int| 0 <= v < vs.len() ==> windows_apart(#[trigger] vs[v].availability@),
        forall|v: int| 0 <= v < vs.len() ==> ids_distinct(#[trigger] vs[v].availability@),
    ensures
        !some_windows_overlap(vs),
{
    assert forall|v: int| 0 <= v < vs.len() implies !windows_clash(#[trigger] vs[v].availability@) by {
        let a = vs[v].availability@;
        assert(ids_distinct(vs[v].availability@));
        assert forall|i: int, j: int| 0 <= i < a.len() && 0 <= j < a.len() && i != j implies !(#[trigger] a[i]).interval.overlaps_spec(
            (#[trigger] a[j]).interval,
        ) by {
            assert(a[i].id != a[j].id);
            assert(apart(a[i].interval, a[j].interval));
        }
    }
}

} // verus!
