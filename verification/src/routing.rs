//! The decisions taken on a ride request: when it starts and ends, which vehicles could take
//! it, and how it could join the tours they already have.

use vstd::prelude::*;
use crate::interval::Interval;
use crate::records::{window, earliest_event, latest_event, CompanyData, EventData, TourData, VehicleData};
use crate::status::Status;
use crate::data::{Data, Selector, derefs, refs, filter_refs};
use crate::queries::{conflicting, has_conflict, holds_window};

verus! {

/// Whether a trip starting at `start_time` leaves an hour, from `now`, to prepare it.
pub fn leaves_preparation_time(now: i64, start_time: i64) -> (r: bool)
    requires
        now <= i64::MAX - 3600,
    ensures
        r == (now + 3600 <= start_time),
{
    now + 3600 <= start_time
}

/// Whether a request made at `now` for `passengers`, whose trip starts at `start_time`, passes
/// the checks made before any vehicle is looked at: its fixed time has not passed, at most 3
/// passengers ride, and it leaves an hour to prepare.
pub fn request_admissible(now: i64, fixed_time: i64, passengers: i32, start_time: i64) -> (r: bool)
    requires
        now <= i64::MAX - 3600,
    ensures
        r == (now <= fixed_time && passengers <= 3 && now + 3600 <= start_time),
{
    now <= fixed_time && passengers <= 3 && leaves_preparation_time(now, start_time)
}

/// How a request could join the tours of a vehicle, or start a new tour of a company.
#[derive(Clone, Copy, Debug, PartialEq, Eq, Structural)]
pub enum TourConcatenationCase {
    Prepend { vehicle_id: i32, successor_tour_id: i32, successor_event_id: i32 },
    Append { vehicle_id: i32, predecessor_tour_id: i32, predecessor_event_id: i32 },
    NewTour { company_id: i32 },
    Insert {
        vehicle_id: i32,
        predecessor_tour_id: i32,
        successor_tour_id: i32,
        predecessor_event_id: i32,
        successor_event_id: i32,
    },
}

/// The start and target times of a trip of `travel` seconds: from `fixed_time` when the start
/// is fixed, otherwise ending at `fixed_time`.
pub open spec fn trip_times(fixed_time: i64, is_start_time_fixed: bool, travel: i64) -> (int, int) {
    if is_start_time_fixed {
        (fixed_time as int, fixed_time + travel)
    } else {
        (fixed_time - travel, fixed_time as int)
    }
}

pub fn request_times(fixed_time: i64, is_start_time_fixed: bool, travel: i64) -> (r: (i64, i64))
    requires
        i64::MIN <= fixed_time - travel <= i64::MAX,
        i64::MIN <= fixed_time + travel <= i64::MAX,
    ensures
        r.0 == trip_times(fixed_time, is_start_time_fixed, travel).0,
        r.1 == trip_times(fixed_time, is_start_time_fixed, travel).1,
{
    if is_start_time_fixed {
        (fixed_time, fixed_time + travel)
    } else {
        (fixed_time - travel, fixed_time)
    }
}

/// The vehicle could take a request for `passengers` in the window: its company's zone holds
/// the start, it has room, no tour of it overlaps the window, and an availability window of it
/// holds the window.
pub open spec fn viable(companies: Seq<CompanyData>, zone_ids: Seq<i32>, iv: Interval, passengers: i32) -> spec_fn(
    VehicleData,
) -> bool {
    |v: VehicleData|
        zone_ids.contains(companies[v.company - 1].zone) && passengers < 4 && !has_conflict(v, iv, 0, true)
            && holds_window(v, iv)
}

/// The company's zone is one of these.
pub open spec fn company_in_zones(zone_ids: Seq<i32>) -> spec_fn(CompanyData) -> bool {
    |c: CompanyData| zone_ids.contains(c.zone)
}

/// The tour's latest event is scheduled before `start`.
pub open spec fn ends_before(t: TourData, start: i64) -> bool {
    latest_event(t.events@).scheduled_time < start
}

/// The tour's earliest event is scheduled before `target`.
pub open spec fn begins_before(t: TourData, target: i64) -> bool {
    earliest_event(t.events@).scheduled_time < target
}

/// Among the tours that end before `start`, the last one with the latest end.
pub open spec fn predecessor_tour(ts: Seq<TourData>, start: i64) -> Option<TourData>
    decreases ts.len(),
{
    if ts.len() == 0 {
        None
    } else {
        let r = predecessor_tour(ts.drop_last(), start);
        let t = ts.last();
        if ends_before(t, start) {
            match r {
                None => Some(t),
                Some(p) => if latest_event(t.events@).scheduled_time >= latest_event(p.events@).scheduled_time {
                    Some(t)
                } else {
                    Some(p)
                },
            }
        } else {
            r
        }
    }
}

/// Among the tours that begin before `target`, the last one with the latest beginning.
pub open spec fn successor_tour(ts: Seq<TourData>, target: i64) -> Option<TourData>
    decreases ts.len(),
{
    if ts.len() == 0 {
        None
    } else {
        let r = successor_tour(ts.drop_last(), target);
        let t = ts.last();
        if begins_before(t, target) {
            match r {
                None => Some(t),
                Some(p) => if earliest_event(t.events@).scheduled_time >= earliest_event(p.events@).scheduled_time {
                    Some(t)
                } else {
                    Some(p)
                },
            }
        } else {
            r
        }
    }
}

/// The ways the request joins the tours of one vehicle: between its predecessor and its
/// successor tour; after the tours when the successor ends before the start; before them when
/// the predecessor departs after the target. `None` when the vehicle lacks either tour.
pub open spec fn vehicle_cases(v: VehicleData, start: i64, target: i64) -> Option<Seq<TourConcatenationCase>> {
    match (predecessor_tour(v.tours@, start), successor_tour(v.tours@, target)) {
        (Some(p), Some(s)) => {
            let insert = TourConcatenationCase::Insert {
                vehicle_id: v.id,
                predecessor_tour_id: p.id,
                successor_tour_id: s.id,
                predecessor_event_id: latest_event(p.events@).id,
                successor_event_id: earliest_event(s.events@).id,
            };
            let append = TourConcatenationCase::Append {
                vehicle_id: v.id,
                predecessor_tour_id: p.id,
                predecessor_event_id: latest_event(p.events@).id,
            };
            let prepend = TourConcatenationCase::Prepend {
                vehicle_id: v.id,
                successor_tour_id: s.id,
                successor_event_id: earliest_event(s.events@).id,
            };
            let with_append = if s.arrival < start { seq![insert, append] } else { seq![insert] };
            Some(if p.departure > target { with_append.push(prepend) } else { with_append })
        },
        _ => None,
    }
}

/// The ways over all the vehicles, vehicle after vehicle; `None` when a vehicle has none.
pub open spec fn all_vehicle_cases(vs: Seq<VehicleData>, start: i64, target: i64) -> Option<Seq<TourConcatenationCase>>
    decreases vs.len(),
{
    if vs.len() == 0 {
        Some(Seq::empty())
    } else {
        match (all_vehicle_cases(vs.drop_last(), start, target), vehicle_cases(vs.last(), start, target)) {
            (Some(a), Some(b)) => Some(a + b),
            _ => None,
        }
    }
}

/// The companies of the vehicles, each once, in the order they first appear.
pub open spec fn distinct_companies(vs: Seq<VehicleData>) -> Seq<i32>
    decreases vs.len(),
{
    if vs.len() == 0 {
        Seq::empty()
    } else {
        let d = distinct_companies(vs.drop_last());
        if d.contains(vs.last().company) { d } else { d.push(vs.last().company) }
    }
}

/// Some vehicle of the company has no tour overlapping the window.
pub open spec fn has_free_vehicle(vs: Seq<VehicleData>, iv: Interval) -> spec_fn(i32) -> bool {
    |c: i32| exists|i: int| 0 <= i < vs.len() && (#[trigger] vs[i]).company == c && !has_conflict(vs[i], iv, 0, true)
}

/// A new tour of each company, in order of first appearance, that has a free vehicle.
pub open spec fn new_tour_cases(vs: Seq<VehicleData>, iv: Interval) -> Seq<TourConcatenationCase> {
    distinct_companies(vs).filter(has_free_vehicle(vs, iv)).map_values(
        |c: i32| TourConcatenationCase::NewTour { company_id: c },
    )
}

/// The latest event of a non-empty list is one of its events, and none is scheduled later.
proof fn lemma_latest_event(es: Seq<EventData>)
    requires
        es.len() > 0,
    ensures
        es.contains(latest_event(es)),
        forall|j: int| 0 <= j < es.len() ==> (#[trigger] es[j]).scheduled_time <= latest_event(es).scheduled_time,
    decreases es.len(),
{
    if es.len() > 1 {
        let prev = es.drop_last();
        lemma_latest_event(prev);
        assert(es[es.len() - 1] == es.last());
        let k = choose|k: int| 0 <= k < prev.len() && prev[k] == latest_event(prev);
        assert(es[k] == prev[k]);
        assert forall|j: int| 0 <= j < es.len() implies (#[trigger] es[j]).scheduled_time <= latest_event(es).scheduled_time by {
            if j < prev.len() {
                assert(es[j] == prev[j]);
            }
        }
    } else {
        assert(es[0] == latest_event(es));
    }
}

/// The earliest event of a non-empty list is one of its events, and none is scheduled earlier.
proof fn lemma_earliest_event(es: Seq<EventData>)
    requires
        es.len() > 0,
    ensures
        es.contains(earliest_event(es)),
        forall|j: int| 0 <= j < es.len() ==> earliest_event(es).scheduled_time <= (#[trigger] es[j]).scheduled_time,
    decreases es.len(),
{
    if es.len() > 1 {
        let prev = es.drop_last();
        lemma_earliest_event(prev);
        assert(es[es.len() - 1] == es.last());
        let k = choose|k: int| 0 <= k < prev.len() && prev[k] == earliest_event(prev);
        assert(es[k] == prev[k]);
        assert forall|j: int| 0 <= j < es.len() implies earliest_event(es).scheduled_time <= (#[trigger] es[j]).scheduled_time by {
            if j < prev.len() {
                assert(es[j] == prev[j]);
            }
        }
    } else {
        assert(es[0] == earliest_event(es));
    }
}

/// Every event of the tour is scheduled before `start`.
pub open spec fn all_events_before(t: TourData, start: i64) -> bool {
    forall|e: int| 0 <= e < t.events@.len() ==> (#[trigger] t.events@[e]).scheduled_time < start
}

/// Some event of the tour is scheduled before `target`.
pub open spec fn some_event_before(t: TourData, target: i64) -> bool {
    exists|e: int| 0 <= e < t.events@.len() && (#[trigger] t.events@[e]).scheduled_time < target
}

/// A tour with events ends before `start` exactly when all its events are scheduled before it,
/// and begins before `target` exactly when some event is scheduled before it.
pub proof fn lemma_tour_ends_and_begins(t: TourData, start: i64, target: i64)
    requires
        t.events@.len() > 0,
    ensures
        ends_before(t, start) <==> all_events_before(t, start),
        begins_before(t, target) <==> some_event_before(t, target),
{
    lemma_latest_event(t.events@);
    lemma_earliest_event(t.events@);
    if all_events_before(t, start) {
        let k = choose|k: int| 0 <= k < t.events@.len() && t.events@[k] == latest_event(t.events@);
    }
    if begins_before(t, target) {
        let k = choose|k: int| 0 <= k < t.events@.len() && t.events@[k] == earliest_event(t.events@);
    }
}

/// The tour a request follows on a vehicle is one of the tours that end before the request's
/// start, and none of those ends later; there is none exactly when no tour ends before it.
pub proof fn lemma_predecessor_tour(ts: Seq<TourData>, start: i64)
    ensures
        predecessor_tour(ts, start) is None <==> forall|i: int| 0 <= i < ts.len() ==> !ends_before(#[trigger] ts[i], start),
        predecessor_tour(ts, start) matches Some(p) ==> {
            &&& ts.contains(p)
            &&& ends_before(p, start)
            &&& forall|i: int|
                0 <= i < ts.len() && ends_before(#[trigger] ts[i], start) ==> latest_event(ts[i].events@).scheduled_time
                    <= latest_event(p.events@).scheduled_time
        },
    decreases ts.len(),
{
    if ts.len() > 0 {
        let prev = ts.drop_last();
        lemma_predecessor_tour(prev, start);
        let t = ts.last();
        assert(ts[ts.len() - 1] == t);
        assert forall|i: int| 0 <= i < prev.len() implies #[trigger] prev[i] == ts[i] by {}
        if let Some(q) = predecessor_tour(prev, start) {
            let k = choose|k: int| 0 <= k < prev.len() && prev[k] == q;
            assert(ts[k] == q);
        }
        if exists|i: int| 0 <= i < prev.len() && ends_before(#[trigger] ts[i], start) {
            let i = choose|i: int| 0 <= i < prev.len() && ends_before(#[trigger] ts[i], start);
            assert(ends_before(prev[i], start));
        }
        if let Some(p) = predecessor_tour(ts, start) {
            if p == t {
                assert(ts.contains(t));
            } else {
                let q = predecessor_tour(prev, start).unwrap();
                assert(p == q);
                let k = choose|k: int| 0 <= k < prev.len() && prev[k] == q;
                assert(ts[k] == p);
            }
            assert forall|i: int|
                0 <= i < ts.len() && ends_before(#[trigger] ts[i], start) implies latest_event(ts[i].events@).scheduled_time
                    <= latest_event(p.events@).scheduled_time by {
                if i < prev.len() {
                    assert(ends_before(prev[i], start));
                }
            }
        }
    }
}

/// The tour a request precedes on a vehicle is one of the tours that begin before the
/// request's target, and none of those begins later; there is none exactly when no tour begins
/// before it.
pub proof fn lemma_successor_tour(ts: Seq<TourData>, target: i64)
    ensures
        successor_tour(ts, target) is None <==> forall|i: int| 0 <= i < ts.len() ==> !begins_before(#[trigger] ts[i], target),
        successor_tour(ts, target) matches Some(p) ==> {
            &&& ts.contains(p)
            &&& begins_before(p, target)
            &&& forall|i: int|
                0 <= i < ts.len() && begins_before(#[trigger] ts[i], target) ==> earliest_event(ts[i].events@).scheduled_time
                    <= earliest_event(p.events@).scheduled_time
        },
    decreases ts.len(),
{
    if ts.len() > 0 {
        let prev = ts.drop_last();
        lemma_successor_tour(prev, target);
        let t = ts.last();
        assert(ts[ts.len() - 1] == t);
        assert forall|i: int| 0 <= i < prev.len() implies #[trigger] prev[i] == ts[i] by {}
        if let Some(q) = successor_tour(prev, target) {
            let k = choose|k: int| 0 <= k < prev.len() && prev[k] == q;
            assert(ts[k] == q);
        }
        if exists|i: int| 0 <= i < prev.len() && begins_before(#[trigger] ts[i], target) {
            let i = choose|i: int| 0 <= i < prev.len() && begins_before(#[trigger] ts[i], target);
            assert(begins_before(prev[i], target));
        }
        if let Some(p) = successor_tour(ts, target) {
            if p == t {
                assert(ts.contains(t));
            } else {
                let q = successor_tour(prev, target).unwrap();
                assert(p == q);
                let k = choose|k: int| 0 <= k < prev.len() && prev[k] == q;
                assert(ts[k] == p);
            }
            assert forall|i: int|
                0 <= i < ts.len() && begins_before(#[trigger] ts[i], target) implies earliest_event(ts[i].events@).scheduled_time
                    <= earliest_event(p.events@).scheduled_time by {
                if i < prev.len() {
                    assert(begins_before(prev[i], target));
                }
            }
        }
    }
}

/// The candidates for a ride request (as `get_viable_vehicles` lists them) are exactly the
/// vehicles whose company's zone is among those holding the start, that are asked to carry at
/// most 3 passengers, that have no tour departing before the trip ends and arriving after it
/// starts, and that have an availability window from no later than the trip's start to no
/// earlier than its end.
pub proof fn lemma_viable_vehicles(vs: Seq<VehicleData>, companies: Seq<CompanyData>, zone_ids: Seq<i32>, iv: Interval, passengers: i32)
    ensures
        forall|v: VehicleData|
            #[trigger] vs.filter(viable(companies, zone_ids, iv, passengers)).contains(v) <==> {
                &&& vs.contains(v)
                &&& zone_ids.contains(companies[v.company - 1].zone)
                &&& passengers < 4
                &&& forall|j: int|
                    0 <= j < v.tours@.len() ==> !(iv.start_time < (#[trigger] v.tours@[j]).arrival && iv.end_time
                        > v.tours@[j].departure)
                &&& exists|k: int|
                    0 <= k < v.availability@.len() && (#[trigger] v.availability@[k]).interval.start_time <= iv.start_time
                        && v.availability@[k].interval.end_time >= iv.end_time
            },
{
    crate::queries::lemma_filter_keeps_exactly(vs, viable(companies, zone_ids, iv, passengers));
    assert forall|v: VehicleData| has_conflict(v, iv, 0, true) <==> !(forall|j: int|
        0 <= j < v.tours@.len() ==> !(iv.start_time < (#[trigger] v.tours@[j]).arrival && iv.end_time
            > v.tours@[j].departure)) by {
        if has_conflict(v, iv, 0, true) {
            let j = choose|j: int| 0 <= j < v.tours@.len() && conflicting(iv, 0, true)(#[trigger] v.tours@[j]);
            assert(iv.start_time < v.tours@[j].arrival && iv.end_time > v.tours@[j].departure);
        }
        if !(forall|j: int|
            0 <= j < v.tours@.len() ==> !(iv.start_time < (#[trigger] v.tours@[j]).arrival && iv.end_time
                > v.tours@[j].departure)) {
            let j = choose|j: int| 0 <= j < v.tours@.len() && !!(iv.start_time < (#[trigger] v.tours@[j]).arrival && iv.end_time
                > v.tours@[j].departure);
            assert(conflicting(iv, 0, true)(v.tours@[j]));
        }
    }
}

/// The ways a request joins one vehicle's tours: there are some exactly when the vehicle has a
/// tour before the request and one after it; the first is always to insert the request between
/// them, after the last event of the one and before the first event of the other; appending
/// after the tours is offered exactly when the later tour arrives before the start, and
/// prepending exactly when the earlier tour departs after the target.
pub proof fn lemma_vehicle_cases(v: VehicleData, start: i64, target: i64)
    ensures
        vehicle_cases(v, start, target) is Some <==> (predecessor_tour(v.tours@, start) is Some && successor_tour(
            v.tours@,
            target,
        ) is Some),
        vehicle_cases(v, start, target) matches Some(cs) ==> {
            let p = predecessor_tour(v.tours@, start).unwrap();
            let s = successor_tour(v.tours@, target).unwrap();
            let append = TourConcatenationCase::Append {
                vehicle_id: v.id,
                predecessor_tour_id: p.id,
                predecessor_event_id: latest_event(p.events@).id,
            };
            let prepend = TourConcatenationCase::Prepend {
                vehicle_id: v.id,
                successor_tour_id: s.id,
                successor_event_id: earliest_event(s.events@).id,
            };
            &&& cs.len() >= 1
            &&& cs[0] == TourConcatenationCase::Insert {
                vehicle_id: v.id,
                predecessor_tour_id: p.id,
                successor_tour_id: s.id,
                predecessor_event_id: latest_event(p.events@).id,
                successor_event_id: earliest_event(s.events@).id,
            }
            &&& (cs.contains(append) <==> s.arrival < start)
            &&& (cs.contains(prepend) <==> p.departure > target)
            &&& cs.len() == 1 + (if s.arrival < start { 1int } else { 0int }) + (if p.departure > target { 1int } else { 0int })
        },
{
    if let Some(cs) = vehicle_cases(v, start, target) {
        let p = predecessor_tour(v.tours@, start).unwrap();
        let s = successor_tour(v.tours@, target).unwrap();
        let append = TourConcatenationCase::Append {
            vehicle_id: v.id,
            predecessor_tour_id: p.id,
            predecessor_event_id: latest_event(p.events@).id,
        };
        let prepend = TourConcatenationCase::Prepend {
            vehicle_id: v.id,
            successor_tour_id: s.id,
            successor_event_id: earliest_event(s.events@).id,
        };
        if s.arrival < start {
            assert(cs[1] == append);
        }
        if p.departure > target {
            assert(cs[cs.len() - 1] == prepend);
        }
        if cs.contains(append) {
            let k = choose|k: int| 0 <= k < cs.len() && cs[k] == append;
        }
        if cs.contains(prepend) {
            let k = choose|k: int| 0 <= k < cs.len() && cs[k] == prepend;
        }
    }
}

/// No tour of the vehicle departs before the window ends and arrives after it starts.
pub open spec fn no_tour_in(v: VehicleData, iv: Interval) -> bool {
    forall|j: int| 0 <= j < v.tours@.len() ==> !(iv.start_time < (#[trigger] v.tours@[j]).arrival && iv.end_time > v.tours@[j].departure)
}

/// The companies listed by `distinct_companies` are the companies of the vehicles, none twice.
proof fn lemma_distinct_companies(vs: Seq<VehicleData>)
    ensures
        forall|i: int, j: int|
            0 <= i < j < distinct_companies(vs).len() ==> #[trigger] distinct_companies(vs)[i]
                != #[trigger] distinct_companies(vs)[j],
        forall|c: i32| #[trigger] distinct_companies(vs).contains(c) <==> exists|v: int| 0 <= v < vs.len() && vs[v].company == c,
    decreases vs.len(),
{
    if vs.len() > 0 {
        let prev = vs.drop_last();
        lemma_distinct_companies(prev);
        let d = distinct_companies(prev);
        let last = vs.last();
        assert(vs[vs.len() - 1] == last);
        assert forall|c: i32| #[trigger] distinct_companies(vs).contains(c) <==> exists|v: int| 0 <= v < vs.len() && vs[v].company == c by {
            if exists|v: int| 0 <= v < vs.len() && vs[v].company == c {
                let v = choose|v: int| 0 <= v < vs.len() && vs[v].company == c;
                if v < prev.len() {
                    assert(prev[v] == vs[v]);
                    assert(d.contains(c));
                    if !d.contains(last.company) {
                        let i = choose|i: int| 0 <= i < d.len() && d[i] == c;
                        assert(d.push(last.company)[i] == c);
                    }
                } else if !d.contains(last.company) {
                    assert(d.push(last.company)[d.len() as int] == c);
                }
            }
            if distinct_companies(vs).contains(c) {
                if d.contains(c) {
                    let v = choose|v: int| 0 <= v < prev.len() && prev[v].company == c;
                    assert(prev[v] == vs[v]);
                } else {
                    let i = choose|i: int| 0 <= i < distinct_companies(vs).len() && distinct_companies(vs)[i] == c;
                    if i < d.len() {
                        assert(d[i] == c);
                    }
                }
            }
        }
    }
}

/// Filtering a list with no item twice keeps it so, and keeps only items that were there.
proof fn lemma_filter_keeps_distinct(s: Seq<i32>, p: spec_fn(i32) -> bool)
    requires
        forall|i: int, j: int| 0 <= i < j < s.len() ==> #[trigger] s[i] != #[trigger] s[j],
    ensures
        forall|i: int, j: int| 0 <= i < j < s.filter(p).len() ==> #[trigger] s.filter(p)[i] != #[trigger] s.filter(p)[j],
    decreases s.len(),
{
    reveal(Seq::filter);
    if s.len() > 0 {
        let prev = s.drop_last();
        lemma_filter_keeps_distinct(prev, p);
        let f = prev.filter(p);
        assert forall|a: int| 0 <= a < f.len() implies f[a] != s.last() by {
            assert(f.contains(f[a]));
            prev.lemma_filter_contains_rev(p, f[a]);
            let k = choose|k: int| 0 <= k < prev.len() && prev[k] == f[a];
            assert(prev[k] == s[k]);
        }
        if p(s.last()) {
            let g = f.push(s.last());
            assert(s.filter(p) == g);
            assert forall|i: int, j: int| 0 <= i < j < g.len() implies #[trigger] g[i] != #[trigger] g[j] by {
                assert(g[i] == f[i]);
                if j < f.len() {
                    assert(g[j] == f[j]);
                }
            }
        } else {
            assert(s.filter(p) == f);
        }
    }
}

/// A ride request gets one new-tour case per company, never more: every new-tour case names
/// the company of a candidate vehicle that has no tour overlapping the window, no two name the
/// same company, and every company of such a vehicle is named.
pub proof fn lemma_new_tours_one_per_company(vs: Seq<VehicleData>, iv: Interval)
    ensures
        ({
            let cases = new_tour_cases(vs, iv);
            &&& forall|i: int| 0 <= i < cases.len() ==> (#[trigger] cases[i] matches TourConcatenationCase::NewTour { company_id }
                && exists|v: int|
                0 <= v < vs.len() && vs[v].company == company_id && no_tour_in(vs[v], iv))
            &&& forall|i: int, j: int| 0 <= i < j < cases.len() ==> #[trigger] cases[i] != #[trigger] cases[j]
            &&& forall|v: int|
                #![trigger vs[v]]
                0 <= v < vs.len() && no_tour_in(vs[v], iv) ==> exists|i: int|
                    0 <= i < cases.len() && #[trigger] cases[i] == TourConcatenationCase::NewTour { company_id: vs[v].company }
        }),
{
    let d = distinct_companies(vs);
    let p = has_free_vehicle(vs, iv);
    let f = d.filter(p);
    let cases = new_tour_cases(vs, iv);
    lemma_distinct_companies(vs);
    lemma_filter_keeps_distinct(d, p);
    assert forall|c: i32| #[trigger] f.contains(c) <==> d.contains(c) && p(c) by {
        if f.contains(c) {
            d.lemma_filter_contains_rev(p, c);
        }
        if d.contains(c) && p(c) {
            let i = choose|i: int| 0 <= i < d.len() && d[i] == c;
            d.lemma_filter_contains(p, i);
        }
    }
    assert(cases.len() == f.len());
    assert forall|i: int| 0 <= i < cases.len() implies (#[trigger] cases[i] matches TourConcatenationCase::NewTour { company_id }
        && exists|v: int|
        0 <= v < vs.len() && vs[v].company == company_id && no_tour_in(vs[v], iv)) by {
        assert(cases[i] == TourConcatenationCase::NewTour { company_id: f[i] });
        assert(f.contains(f[i]));
        let v = choose|v: int| 0 <= v < vs.len() && (#[trigger] vs[v]).company == f[i] && !has_conflict(vs[v], iv, 0, true);
        assert forall|j: int| 0 <= j < vs[v].tours@.len() implies !(iv.start_time < (#[trigger] vs[v].tours@[j]).arrival
            && iv.end_time > vs[v].tours@[j].departure) by {
            if iv.start_time < vs[v].tours@[j].arrival && iv.end_time > vs[v].tours@[j].departure {
                assert(conflicting(iv, 0, true)(vs[v].tours@[j]));
            }
        }
        assert(no_tour_in(vs[v], iv));
    }
    assert forall|i: int, j: int| 0 <= i < j < cases.len() implies #[trigger] cases[i] != #[trigger] cases[j] by {
        assert(cases[i] == TourConcatenationCase::NewTour { company_id: f[i] });
        assert(cases[j] == TourConcatenationCase::NewTour { company_id: f[j] });
        assert(f[i] != f[j]);
    }
    assert forall|v: int|
        #![trigger vs[v]]
        0 <= v < vs.len() && no_tour_in(vs[v], iv) implies exists|i: int|
            0 <= i < cases.len() && #[trigger] cases[i] == TourConcatenationCase::NewTour { company_id: vs[v].company } by {
        let c = vs[v].company;
        assert(!has_conflict(vs[v], iv, 0, true)) by {
            if has_conflict(vs[v], iv, 0, true) {
                let j = choose|j: int| 0 <= j < vs[v].tours@.len() && conflicting(iv, 0, true)(#[trigger] vs[v].tours@[j]);
            }
        }
        assert(p(c));
        assert(d.contains(c));
        assert(f.contains(c));
        let i = choose|i: int| 0 <= i < f.len() && f[i] == c;
        assert(cases[i] == TourConcatenationCase::NewTour { company_id: c });
    }
}

/// The trip a ride request books: its times, the vehicle and the number of passengers booked,
/// and the id of the request.
#[derive(Clone, Copy, Debug, PartialEq, Eq, Structural)]
pub struct Booking {
    pub start_time: i64,
    pub target_time: i64,
    pub vehicle: i32,
    pub passengers: i32,
    pub request_id: i32,
}

/// What a ride request amounts to before the road distances are known.
pub struct RoutingPlan {
    pub start_time: i64,
    pub target_time: i64,
    /// ids of the vehicles that could take it
    pub candidates: Vec<i32>,
    pub cases: Vec<TourConcatenationCase>,
}

struct InZones<'a> {
    zone_ids: &'a Vec<i32>,
}

impl<'a> Selector<CompanyData> for InZones<'a> {
    closed spec fn selects(&self) -> spec_fn(CompanyData) -> bool {
        company_in_zones(self.zone_ids@)
    }

    fn select(&self, c: &CompanyData) -> (b: bool) {
        contains_i32(self.zone_ids, c.zone)
    }
}

fn contains_i32(v: &Vec<i32>, x: i32) -> (r: bool)
    ensures
        r == v@.contains(x),
{
    let mut i: usize = 0;
    while i < v.len()
        invariant
            i <= v@.len(),
            forall|j: int| 0 <= j < i ==> v@[j] != x,
        decreases v@.len() - i,
    {
        if v[i] == x {
            assert(v@[i as int] == x);
            return true;
        }
        i += 1;
    }
    false
}

/// Whether no tour of the vehicle overlaps the window.
fn is_free(v: &VehicleData, iv: &Interval) -> (r: bool)
    ensures
        r == !has_conflict(*v, *iv, 0, true),
{
    let mut j: usize = 0;
    while j < v.tours.len()
        invariant
            j <= v.tours@.len(),
            forall|k: int| 0 <= k < j ==> !iv.overlaps_spec((#[trigger] v.tours@[k]).span()),
        decreases v.tours@.len() - j,
    {
        if v.tours[j].overlaps(iv) {
            assert(crate::queries::conflicting(*iv, 0, true)(v.tours@[j as int]));
            return false;
        }
        j += 1;
    }
    true
}

/// Whether an availability window of the vehicle holds the window.
fn holds(v: &VehicleData, iv: &Interval) -> (r: bool)
    ensures
        r == holds_window(*v, *iv),
{
    let mut k: usize = 0;
    while k < v.availability.len()
        invariant
            k <= v.availability@.len(),
            forall|j: int| 0 <= j < k ==> !(#[trigger] v.availability@[j]).interval.contains_spec(*iv),
        decreases v.availability@.len() - k,
    {
        if v.availability[k].interval.contains(iv) {
            assert(v.availability@[k as int].interval.contains_spec(*iv));
            return true;
        }
        k += 1;
    }
    false
}

/// The predecessor tour among the vehicle's tours, with its latest event.
fn find_predecessor(ts: &Vec<TourData>, start: i64) -> (r: Option<&TourData>)
    requires
        forall|j: int| 0 <= j < ts@.len() ==> (#[trigger] ts@[j]).events@.len() > 0,
    ensures
        match r {
            Some(t) => predecessor_tour(ts@, start) == Some(*t) && t.events@.len() > 0,
            None => predecessor_tour(ts@, start) is None,
        },
{
    let mut best: Option<&TourData> = None;
    let mut i: usize = 0;
    assert(ts@.take(0) =~= Seq::<TourData>::empty());
    while i < ts.len()
        invariant
            i <= ts@.len(),
            forall|j: int| 0 <= j < ts@.len() ==> (#[trigger] ts@[j]).events@.len() > 0,
            match best {
                Some(t) => predecessor_tour(ts@.take(i as int), start) == Some(*t) && t.events@.len() > 0,
                None => predecessor_tour(ts@.take(i as int), start) is None,
            },
        decreases ts@.len() - i,
    {
        let t = &ts[i];
        assert(ts@.take(i + 1).drop_last() =~= ts@.take(i as int));
        assert(ts@.take(i + 1).last() == ts@[i as int]);
        let last = t.get_last_event().unwrap();
        if last.scheduled_time < start {
            match best {
                None => {
                    best = Some(t);
                },
                Some(b) => {
                    let b_last = b.get_last_event().unwrap();
                    if last.scheduled_time >= b_last.scheduled_time {
                        best = Some(t);
                    }
                },
            }
        }
        i += 1;
    }
    assert(ts@.take(ts@.len() as int) =~= ts@);
    best
}

/// The successor tour among the vehicle's tours.
fn find_successor(ts: &Vec<TourData>, target: i64) -> (r: Option<&TourData>)
    requires
        forall|j: int| 0 <= j < ts@.len() ==> (#[trigger] ts@[j]).events@.len() > 0,
    ensures
        match r {
            Some(t) => successor_tour(ts@, target) == Some(*t) && t.events@.len() > 0,
            None => successor_tour(ts@, target) is None,
        },
{
    let mut best: Option<&TourData> = None;
    let mut i: usize = 0;
    assert(ts@.take(0) =~= Seq::<TourData>::empty());
    while i < ts.len()
        invariant
            i <= ts@.len(),
            forall|j: int| 0 <= j < ts@.len() ==> (#[trigger] ts@[j]).events@.len() > 0,
            match best {
                Some(t) => successor_tour(ts@.take(i as int), target) == Some(*t) && t.events@.len() > 0,
                None => successor_tour(ts@.take(i as int), target) is None,
            },
        decreases ts@.len() - i,
    {
        let t = &ts[i];
        assert(ts@.take(i + 1).drop_last() =~= ts@.take(i as int));
        assert(ts@.take(i + 1).last() == ts@[i as int]);
        let first = t.get_first_event().unwrap();
        if first.scheduled_time < target {
            match best {
                None => {
                    best = Some(t);
                },
                Some(b) => {
                    let b_first = b.get_first_event().unwrap();
                    if first.scheduled_time >= b_first.scheduled_time {
                        best = Some(t);
                    }
                },
            }
        }
        i += 1;
    }
    assert(ts@.take(ts@.len() as int) =~= ts@);
    best
}

/// The ways the request joins the tours of one vehicle.
fn cases_for_vehicle(v: &VehicleData, start: i64, target: i64) -> (r: Option<Vec<TourConcatenationCase>>)
    requires
        forall|j: int| 0 <= j < v.tours@.len() ==> (#[trigger] v.tours@[j]).events@.len() > 0,
    ensures
        match r {
            Some(cs) => vehicle_cases(*v, start, target) == Some(cs@),
            None => vehicle_cases(*v, start, target) is None,
        },
{
    let predecessor = match find_predecessor(&v.tours, start) {
        None => return None,
        Some(t) => t,
    };
    let successor = match find_successor(&v.tours, target) {
        None => return None,
        Some(t) => t,
    };
    let predecessor_event_id = predecessor.get_last_event().unwrap().id;
    let successor_event_id = successor.get_first_event().unwrap().id;
    let mut cs: Vec<TourConcatenationCase> = Vec::new();
    cs.push(
        TourConcatenationCase::Insert {
            vehicle_id: v.id,
            predecessor_tour_id: predecessor.id,
            successor_tour_id: successor.id,
            predecessor_event_id,
            successor_event_id,
        },
    );
    if successor.arrival < start {
        cs.push(
            TourConcatenationCase::Append {
                vehicle_id: v.id,
                predecessor_tour_id: predecessor.id,
                predecessor_event_id,
            },
        );
    }
    if predecessor.departure > target {
        cs.push(
            TourConcatenationCase::Prepend { vehicle_id: v.id, successor_tour_id: successor.id, successor_event_id },
        );
    }
    assert(vehicle_cases(*v, start, target) == Some(cs@));
    Some(cs)
}

/// Every vehicle's company stands among the companies.
pub open spec fn companies_known(vs: Seq<VehicleData>, companies: Seq<CompanyData>) -> bool {
    forall|i: int| 0 <= i < vs.len() ==> 1 <= (#[trigger] vs[i]).company <= companies.len()
}

/// The companies, each once, of the vehicles in order of first appearance.
fn companies_in_order(vs: &Vec<&VehicleData>) -> (r: Vec<i32>)
    ensures
        r@ == distinct_companies(derefs(vs@)),
{
    let ghost s = derefs(vs@);
    let mut r: Vec<i32> = Vec::new();
    let mut i: usize = 0;
    assert(s.take(0) =~= Seq::<VehicleData>::empty());
    while i < vs.len()
        invariant
            s == derefs(vs@),
            i <= s.len(),
            r@ == distinct_companies(s.take(i as int)),
        decreases s.len() - i,
    {
        assert(s.take(i + 1).drop_last() =~= s.take(i as int));
        assert(s.take(i + 1).last() == s[i as int]);
        assert(*vs@[i as int] == s[i as int]);
        let c = vs[i].company;
        if !contains_i32(&r, c) {
            r.push(c);
        }
        i += 1;
    }
    assert(s.take(s.len() as int) =~= s);
    r
}

/// A new tour of each company, in order of first appearance, that has a free vehicle.
fn new_tours(vs: &Vec<&VehicleData>, iv: &Interval) -> (r: Vec<TourConcatenationCase>)
    ensures
        r@ == new_tour_cases(derefs(vs@), *iv),
{
    let ghost s = derefs(vs@);
    let ghost p = has_free_vehicle(s, *iv);
    let companies = companies_in_order(vs);
    let ghost d = companies@;
    let mut r: Vec<TourConcatenationCase> = Vec::new();
    let mut i: usize = 0;
    assert(d.take(0).filter(p) =~= Seq::<i32>::empty()) by {
        reveal(Seq::filter);
    }
    assert(r@ =~= d.take(0).filter(p).map_values(|c: i32| TourConcatenationCase::NewTour { company_id: c }));
    while i < companies.len()
        invariant
            s == derefs(vs@),
            p == has_free_vehicle(s, *iv),
            d == companies@,
            i <= d.len(),
            r@ == d.take(i as int).filter(p).map_values(|c: i32| TourConcatenationCase::NewTour { company_id: c }),
        decreases d.len() - i,
    {
        let c = companies[i];
        assert(d.take(i + 1) =~= d.take(i as int).push(c));
        proof {
            d.take(i as int).lemma_filter_push(c, p);
        }
        let mut free = false;
        let mut k: usize = 0;
        while k < vs.len()
            invariant
                s == derefs(vs@),
                k <= s.len(),
                free == exists|j: int| 0 <= j < k && (#[trigger] s[j]).company == c && !has_conflict(s[j], *iv, 0, true),
            decreases s.len() - k,
        {
            assert(*vs@[k as int] == s[k as int]);
            if vs[k].company == c && is_free(vs[k], iv) {
                free = true;
            }
            k += 1;
        }
        assert(free == p(c));
        let ghost before = r@;
        if free {
            r.push(TourConcatenationCase::NewTour { company_id: c });
            assert(r@ =~= d.take(i + 1).filter(p).map_values(|c: i32| TourConcatenationCase::NewTour { company_id: c }));
        } else {
            assert(r@ =~= d.take(i + 1).filter(p).map_values(|c: i32| TourConcatenationCase::NewTour { company_id: c }));
        }
        i += 1;
    }
    assert(d.take(d.len() as int) =~= d);
    r
}

/// All the ways the request could be served by the candidate vehicles: first a new tour of
/// each company with a free vehicle, then the ways of each vehicle. A vehicle without a
/// predecessor or a successor tour makes the request fail with `InternalServerError`.
pub fn concatenation_cases(candidates: &Vec<&VehicleData>, beeline_interval: &Interval, start_time: i64, target_time: i64) -> (r:
    Result<Vec<TourConcatenationCase>, Status>)
    requires
        forall|i: int, j: int|
            0 <= i < candidates@.len() && 0 <= j < candidates@[i].tours@.len() ==> (#[trigger] candidates@[i].tours@[j]).events@.len()
                > 0,
    ensures
        match all_vehicle_cases(derefs(candidates@), start_time, target_time) {
            Some(cs) => r == Ok::<Vec<TourConcatenationCase>, Status>(r->Ok_0) && r->Ok_0@ == new_tour_cases(
                derefs(candidates@),
                *beeline_interval,
            ) + cs,
            None => r == Err::<Vec<TourConcatenationCase>, Status>(Status::InternalServerError),
        },
{
    let ghost s = derefs(candidates@);
    let mut cases = new_tours(candidates, beeline_interval);
    let ghost prefix = cases@;
    let mut i: usize = 0;
    assert(s.take(0) =~= Seq::<VehicleData>::empty());
    assert(cases@ =~= prefix + all_vehicle_cases(s.take(0), start_time, target_time).unwrap());
    while i < candidates.len()
        invariant
            s == derefs(candidates@),
            i <= s.len(),
            forall|a: int, b: int|
                0 <= a < candidates@.len() && 0 <= b < candidates@[a].tours@.len() ==> (#[trigger] candidates@[a].tours@[b]).events@.len()
                    > 0,
            all_vehicle_cases(s.take(i as int), start_time, target_time) is Some,
            cases@ == prefix + all_vehicle_cases(s.take(i as int), start_time, target_time).unwrap(),
            prefix == new_tour_cases(s, *beeline_interval),
        decreases s.len() - i,
    {
        let v = candidates[i];
        assert(*v == s[i as int]);
        assert(s.take(i + 1).drop_last() =~= s.take(i as int));
        assert(s.take(i + 1).last() == s[i as int]);
        match cases_for_vehicle(v, start_time, target_time) {
            None => {
                proof {
                    lemma_no_cases_stays(s, i as int + 1, start_time, target_time);
                }
                return Err(Status::InternalServerError);
            },
            Some(vc) => {
                let ghost before = cases@;
                let mut vc = vc;
                cases.append(&mut vc);
                assert(cases@ =~= prefix + all_vehicle_cases(s.take(i + 1), start_time, target_time).unwrap());
            },
        }
        i += 1;
    }
    assert(s.take(s.len() as int) =~= s);
    Ok(cases)
}

/// Once a prefix of the vehicles has no ways, no longer prefix has any.
proof fn lemma_no_cases_stays(s: Seq<VehicleData>, i: int, start: i64, target: i64)
    requires
        0 <= i <= s.len(),
        all_vehicle_cases(s.take(i), start, target) is None,
    ensures
        all_vehicle_cases(s, start, target) is None,
    decreases s.len() - i,
{
    if i < s.len() {
        assert(s.take(i + 1).drop_last() =~= s.take(i));
        lemma_no_cases_stays(s, i + 1, start, target);
    } else {
        assert(s.take(i) =~= s);
    }
}

impl Data {
    /// The ids of the zones whose area holds the start point; `contains_point` tells, zone by
    /// zone, whether it does.
    pub fn get_zones_containing_point_ids(&self, contains_point: &Vec<bool>) -> (r: Vec<i32>)
        requires
            contains_point@.len() == self.zones@.len(),
        ensures
            r@.len() <= self.zones@.len(),
            r@ == zone_ids_where(self.zones@.map_values(|z: crate::records::ZoneData| z.id), contains_point@),
    {
        let ghost ids = self.zones@.map_values(|z: crate::records::ZoneData| z.id);
        let mut r: Vec<i32> = Vec::new();
        let mut i: usize = 0;
        assert(zone_ids_where(ids.take(0), contains_point@.take(0)) =~= Seq::<i32>::empty());
        while i < self.zones.len()
            invariant
                ids == self.zones@.map_values(|z: crate::records::ZoneData| z.id),
                contains_point@.len() == self.zones@.len(),
                i <= self.zones@.len(),
                r@.len() <= i,
                r@ == zone_ids_where(ids.take(i as int), contains_point@.take(i as int)),
            decreases self.zones@.len() - i,
        {
            assert(ids.take(i + 1).drop_last() =~= ids.take(i as int));
            assert(contains_point@.take(i + 1).drop_last() =~= contains_point@.take(i as int));
            assert(ids.take(i + 1).last() == self.zones@[i as int].id);
            assert(contains_point@.take(i + 1).last() == contains_point@[i as int]);
            if contains_point[i] {
                r.push(self.zones[i].id);
            }
            i += 1;
        }
        assert(ids.take(i as int) =~= ids);
        assert(contains_point@.take(i as int) =~= contains_point@);
        r
    }

    /// The companies whose zone is one of `zone_ids`.
    pub fn get_start_point_viable_companies(&self, zone_ids: &Vec<i32>) -> (r: Vec<&CompanyData>)
        ensures
            derefs(r@) == self.companies@.filter(company_in_zones(zone_ids@)),
    {
        let companies = refs(&self.companies);
        filter_refs(&companies, &InZones { zone_ids })
    }

    /// The vehicles that could take a request for `passengers` in the window `interval`,
    /// starting in one of the zones `zone_ids`.
    pub fn get_viable_vehicles(&self, interval: &Interval, passengers: i32, zone_ids: &Vec<i32>) -> (r: Vec<&VehicleData>)
        requires
            companies_known(self.vehicles@, self.companies@),
        ensures
            derefs(r@) == self.vehicles@.filter(viable(self.companies@, zone_ids@, *interval, passengers)),
    {
        let ghost s = self.vehicles@;
        let ghost p = viable(self.companies@, zone_ids@, *interval, passengers);
        let mut r: Vec<&VehicleData> = Vec::new();
        let mut i: usize = 0;
        assert(s.take(0).filter(p) =~= Seq::<VehicleData>::empty()) by {
            reveal(Seq::filter);
        }
        while i < self.vehicles.len()
            invariant
                s == self.vehicles@,
                p == viable(self.companies@, zone_ids@, *interval, passengers),
                companies_known(s, self.companies@),
                i <= s.len(),
                derefs(r@) == s.take(i as int).filter(p),
            decreases s.len() - i,
        {
            let v = &self.vehicles[i];
            assert(s.take(i + 1) =~= s.take(i as int).push(s[i as int]));
            proof {
                s.take(i as int).lemma_filter_push(s[i as int], p);
            }
            let company = &self.companies[(v.company - 1) as usize];
            let keep = contains_i32(zone_ids, company.zone) && v.fulfills_requirements(passengers, 0, 0) && is_free(
                v,
                interval,
            ) && holds(v, interval);
            assert(keep == p(*v));
            let ghost before = r@;
            if keep {
                r.push(v);
                assert(derefs(r@) =~= derefs(before).push(*v));
            }
            i += 1;
        }
        assert(s.take(s.len() as int) =~= s);
        r
    }

    /// Decides, at time `now`, on a ride request before road distances are known: the fixed
    /// time must not have passed, at most 3 passengers ride, the trip (timed by `beeline_minutes`
    /// as the crow flies) must start at least an hour from now; then it names the trip's times,
    /// the candidate vehicles and the ways the request could join their tours.
    pub fn plan_routing_request_at(
        &self,
        fixed_time: i64,
        is_start_time_fixed: bool,
        passengers: i32,
        beeline_minutes: i64,
        zone_ids: &Vec<i32>,
        now: i64,
    ) -> (r: Result<RoutingPlan, Status>)
        requires
            0 <= beeline_minutes <= i64::MAX / 60,
            i64::MIN <= fixed_time - beeline_minutes * 60,
            fixed_time + beeline_minutes * 60 <= i64::MAX,
            now <= i64::MAX - 3600,
            ({
                let times = trip_times(fixed_time, is_start_time_fixed, (beeline_minutes * 60) as i64);
                let w = window(times.0 as i64, times.1 as i64);
                now <= fixed_time && passengers <= 3 && now + 3600 <= times.0 ==> {
                    &&& companies_known(self.vehicles@, self.companies@)
                    &&& forall|i: int, j: int|
                        0 <= i < self.vehicles@.len() && 0 <= j < self.vehicles@[i].tours@.len() && viable(
                            self.companies@,
                            zone_ids@,
                            w,
                            passengers,
                        )(self.vehicles@[i]) ==> (#[trigger] self.vehicles@[i].tours@[j]).events@.len() > 0
                }
            }),
        ensures
            ({
                let times = trip_times(fixed_time, is_start_time_fixed, (beeline_minutes * 60) as i64);
                let w = window(times.0 as i64, times.1 as i64);
                let vs = self.vehicles@.filter(viable(self.companies@, zone_ids@, w, passengers));
                if now > fixed_time {
                    r == Err::<RoutingPlan, Status>(Status::NotAcceptable)
                } else if passengers > 3 {
                    r == Err::<RoutingPlan, Status>(Status::NoContent)
                } else if now + 3600 > times.0 {
                    r == Err::<RoutingPlan, Status>(Status::NoContent)
                } else {
                    match all_vehicle_cases(vs, times.0 as i64, times.1 as i64) {
                        None => r == Err::<RoutingPlan, Status>(Status::InternalServerError),
                        Some(cs) => r is Ok && {
                            let plan = r->Ok_0;
                            &&& plan.start_time == times.0
                            &&& plan.target_time == times.1
                            &&& plan.candidates@ == vs.map_values(|v: VehicleData| v.id)
                            &&& plan.cases@ == new_tour_cases(vs, w) + cs
                        },
                    }
                }
            }),
    {
        if now > fixed_time {
            return Err(Status::NotAcceptable);
        }
        if passengers > 3 {
            return Err(Status::NoContent);
        }
        let (start_time, target_time) = request_times(fixed_time, is_start_time_fixed, beeline_minutes * 60);
        if !leaves_preparation_time(now, start_time) {
            return Err(Status::NoContent);
        }
        let beeline_interval = Interval::new(start_time, target_time);
        let candidate_vehicles = self.get_viable_vehicles(&beeline_interval, passengers, zone_ids);
        proof {
            let vs = derefs(candidate_vehicles@);
            assert forall|i: int, j: int|
                0 <= i < candidate_vehicles@.len() && 0 <= j < candidate_vehicles@[i].tours@.len() implies (
            #[trigger] candidate_vehicles@[i].tours@[j]).events@.len() > 0 by {
                let p = viable(self.companies@, zone_ids@, beeline_interval, passengers);
                assert(vs[i] == *candidate_vehicles@[i]);
                assert(self.vehicles@.filter(p).contains(vs[i]));
                self.vehicles@.lemma_filter_contains_rev(p, vs[i]);
                self.vehicles@.lemma_filter_pred(p, i);
                let k = choose|k: int| 0 <= k < self.vehicles@.len() && self.vehicles@[k] == vs[i];
                assert(p(self.vehicles@[k]));
                assert(self.vehicles@[k].tours@[j].events@.len() > 0);
            }
        }
        let cases = match concatenation_cases(&candidate_vehicles, &beeline_interval, start_time, target_time) {
            Ok(c) => c,
            Err(e) => return Err(e),
        };
        let mut candidates: Vec<i32> = Vec::new();
        let mut i: usize = 0;
        while i < candidate_vehicles.len()
            invariant
                i <= candidate_vehicles@.len(),
                candidates@ =~= derefs(candidate_vehicles@).take(i as int).map_values(|v: VehicleData| v.id),
            decreases candidate_vehicles@.len() - i,
        {
            candidates.push(candidate_vehicles[i].id);
            i += 1;
        }
        assert(derefs(candidate_vehicles@).take(i as int) =~= derefs(candidate_vehicles@));
        Ok(RoutingPlan { start_time, target_time, candidates, cases })
    }

    /// Decides, at time `now`, what a ride request books once its trip is known to take
    /// `travel_seconds` on the road: the trip is timed in whole minutes from the fixed time; with
    /// less than an hour left to prepare it is answered with no content and nothing changes;
    /// otherwise the next request id is taken and the trip is booked for vehicle 1 with one
    /// passenger, whichever vehicles were candidates.
    pub fn decide_booking(&mut self, fixed_time: i64, is_start_time_fixed: bool, travel_seconds: i64, now: i64) -> (r:
        Result<Booking, Status>)
        requires
            0 <= travel_seconds <= i32::MAX,
            i64::MIN + i32::MAX <= fixed_time <= i64::MAX - i32::MAX,
            now <= i64::MAX - 3600,
            ({
                let times = trip_times(fixed_time, is_start_time_fixed, ((travel_seconds / 60) * 60) as i64);
                now + 3600 <= times.0 ==> old(self).next_request_id < i32::MAX
            }),
        ensures
            ({
                let times = trip_times(fixed_time, is_start_time_fixed, ((travel_seconds / 60) * 60) as i64);
                if now + 3600 > times.0 {
                    r == Err::<Booking, Status>(Status::NoContent) && *final(self) == *old(self)
                } else {
                    &&& r == Ok::<Booking, Status>(
                        Booking {
                            start_time: times.0 as i64,
                            target_time: times.1 as i64,
                            vehicle: 1,
                            passengers: 1,
                            request_id: (old(self).next_request_id + 1) as i32,
                        },
                    )
                    &&& final(self).next_request_id == old(self).next_request_id + 1
                    &&& final(self).users == old(self).users
                    &&& final(self).zones == old(self).zones
                    &&& final(self).companies == old(self).companies
                    &&& final(self).vehicles == old(self).vehicles
                    &&& final(self).addresses == old(self).addresses
                }
            }),
    {
        let minutes = crate::units::seconds_to_minutes(travel_seconds as i32) as i64;
        let (start_time, target_time) = request_times(fixed_time, is_start_time_fixed, minutes * 60);
        if !leaves_preparation_time(now, start_time) {
            return Err(Status::NoContent);
        }
        let request_id = self.take_next_request_id();
        Ok(Booking { start_time, target_time, vehicle: 1, passengers: 1, request_id })
    }

    /// Counts the request: the next request id goes up by one and is returned.
    pub fn take_next_request_id(&mut self) -> (r: i32)
        requires
            old(self).next_request_id < i32::MAX,
        ensures
            r == old(self).next_request_id + 1,
            final(self).next_request_id == r,
            final(self).users == old(self).users,
            final(self).zones == old(self).zones,
            final(self).companies == old(self).companies,
            final(self).vehicles == old(self).vehicles,
            final(self).addresses == old(self).addresses,
            old(self).wf() ==> final(self).wf(),
    {
        self.next_request_id = self.next_request_id + 1;
        self.next_request_id
    }
}

/// The ids whose flag is set, in order.
pub open spec fn zone_ids_where(ids: Seq<i32>, flags: Seq<bool>) -> Seq<i32>
    decreases ids.len(),
{
    if ids.len() == 0 || flags.len() == 0 {
        Seq::empty()
    } else {
        let before = zone_ids_where(ids.drop_last(), flags.drop_last());
        if flags.last() { before.push(ids.last()) } else { before }
    }
}

} // verus!
