//! Requests that change the data. Each one is decided here in two steps around the
//! database: the first step checks the request against the data and says what to store; once
//! the database has stored it (and named its id), the second step records it in memory.

use vstd::prelude::*;
use crate::interval::Interval;
use crate::records::{window, AddressData, AvailabilityData, CompanyData, Coordinates, EventData, TourData, UserData, VehicleData, ZoneData};
use crate::status::Status;
use crate::availability::{AvailabilityAddition, AvailabilityRemoval, after_removal, apply_cuts, ids_distinct, lemma_added_window_keeps_apart, lemma_apart_windows_never_overlap, lemma_removal_keeps_apart, not_listed, removal_scan, some_windows_overlap, windows_apart, with_added_window, with_window};
use crate::data::{Data, events_of, first_tour_with_id, tours_of, lemma_first_tour_location, lemma_tours_name_kept, tours_name_their_vehicle};
use crate::queries::has_conflict;

verus! {

/// The roles a user may hold: a user of a company drives or dispatches for it, a user of no
/// company does neither, and an admin does neither.
pub open spec fn role_valid(is_driver: bool, is_disponent: bool, is_admin: bool, company_id: Option<i32>) -> bool {
    &&& (company_id is None ==> !is_driver && !is_disponent)
    &&& (company_id is Some ==> is_driver || is_disponent)
    &&& !(is_admin && (is_driver || is_disponent))
}

pub fn is_user_role_valid(is_driver: bool, is_disponent: bool, is_admin: bool, company_id: Option<i32>) -> (r: bool)
    ensures
        r == role_valid(is_driver, is_disponent, is_admin, company_id),
{
    match company_id {
        None => if is_driver || is_disponent {
            return false;
        },
        Some(_) => if !is_driver && !is_disponent {
            return false;
        },
    }
    if is_admin && (is_driver || is_disponent) {
        return false;
    }
    true
}

/// A vehicle to be stored.
pub struct NewVehicle {
    pub license_plate: String,
    pub company: i32,
    pub seats: i32,
    pub wheelchair_capacity: i32,
    pub storage_space: i32,
}

/// Some vehicle carries this license plate.
pub open spec fn plate_taken(vs: Seq<VehicleData>, plate: Seq<char>) -> bool {
    exists|i: int| 0 <= i < vs.len() && (#[trigger] vs[i]).license_plate@ == plate
}

/// Some user has this name or this email address.
pub open spec fn user_taken(us: Map<i32, UserData>, name: Seq<char>, email: Seq<char>) -> bool {
    exists|k: i32| us.contains_key(k) && ((#[trigger] us[k]).name@ == name || us[k].email@ == email)
}

/// A zone with this id exists.
pub open spec fn zone_known(zs: Seq<ZoneData>, id: i32) -> bool {
    exists|k: int| 0 <= k < zs.len() && (#[trigger] zs[k]).id == id
}

/// A user with this id exists.
pub open spec fn user_known(us: Map<i32, UserData>, id: i32) -> bool {
    us.contains_key(id)
}

/// Some zone has this name.
pub open spec fn zone_taken(zs: Seq<ZoneData>, name: Seq<char>) -> bool {
    exists|i: int| 0 <= i < zs.len() && (#[trigger] zs[i]).name@ == name
}

/// Some company has this name.
pub open spec fn company_taken(cs: Seq<CompanyData>, name: Seq<char>) -> bool {
    exists|i: int| 0 <= i < cs.len() && (#[trigger] cs[i]).name@ == name
}

/// Every vehicle but the one at position `k` is as it was.
pub open spec fn others_unchanged(before: Seq<VehicleData>, after: Seq<VehicleData>, k: int) -> bool {
    &&& after.len() == before.len()
    &&& forall|i: int| 0 <= i < before.len() && i != k ==> after[i] == before[i]
}

/// The vehicle kept everything but its availability.
pub open spec fn same_but_availability(before: VehicleData, after: VehicleData) -> bool {
    &&& after.id == before.id
    &&& after.license_plate == before.license_plate
    &&& after.company == before.company
    &&& after.seats == before.seats
    &&& after.wheelchair_capacity == before.wheelchair_capacity
    &&& after.storage_space == before.storage_space
    &&& after.tours == before.tours
}

/// The vehicle kept everything but its tours.
pub open spec fn same_but_tours(before: VehicleData, after: VehicleData) -> bool {
    &&& after.id == before.id
    &&& after.license_plate == before.license_plate
    &&& after.company == before.company
    &&& after.seats == before.seats
    &&& after.wheelchair_capacity == before.wheelchair_capacity
    &&& after.storage_space == before.storage_space
    &&& after.availability == before.availability
}

/// `k` is the first position of a tour with this id.
pub open spec fn is_first_tour_index(ts: Seq<TourData>, id: i32, k: int) -> bool {
    &&& 0 <= k < ts.len()
    &&& ts[k].id == id
    &&& forall|j: int| 0 <= j < k ==> ts[j].id != id
}

/// The tour as it is once it belongs to another vehicle.
pub open spec fn moved_tour(t: TourData, vehicle: i32) -> TourData {
    TourData { id: t.id, departure: t.departure, arrival: t.arrival, vehicle: vehicle, events: t.events }
}

/// `after` is `before` with the tour `t`, the first with id `tour_id` of the vehicle it names,
/// taken from that vehicle's tours and appended, naming its new vehicle, to the tours of the
/// vehicle `new_vehicle_id`; nothing else changed.
pub open spec fn tour_moved(
    before: Seq<VehicleData>,
    after: Seq<VehicleData>,
    t: TourData,
    tour_id: i32,
    new_vehicle_id: i32,
) -> bool {
    let o = t.vehicle - 1;
    let n = new_vehicle_id - 1;
    &&& 0 <= o < before.len()
    &&& 0 <= n < before.len()
    &&& after.len() == before.len()
    &&& forall|i: int| 0 <= i < before.len() && i != o && i != n ==> after[i] == before[i]
    &&& same_but_tours(before[o], after[o])
    &&& same_but_tours(before[n], after[n])
    &&& exists|k: int| {
        &&& is_first_tour_index(before[o].tours@, tour_id, k)
        &&& before[o].tours@[k] == t
        &&& if o == n {
            after[n].tours@ == before[o].tours@.remove(k).push(moved_tour(t, new_vehicle_id))
        } else {
            &&& after[o].tours@ == before[o].tours@.remove(k)
            &&& after[n].tours@ == before[n].tours@.push(moved_tour(t, new_vehicle_id))
        }
    }
}

/// Replacing one vehicle changes the number of tours by the difference of its tour counts.
proof fn lemma_tours_of_update_len(vs: Seq<VehicleData>, i: int, v: VehicleData)
    requires
        0 <= i < vs.len(),
    ensures
        tours_of(vs.update(i, v)).len() == tours_of(vs).len() - vs[i].tours@.len() + v.tours@.len(),
    decreases vs.len(),
{
    if i < vs.len() - 1 {
        assert(vs.update(i, v).drop_last() =~= vs.drop_last().update(i, v));
        lemma_tours_of_update_len(vs.drop_last(), i, v);
    } else {
        assert(vs.update(i, v).drop_last() =~= vs.drop_last());
    }
}

/// Moving a tour to another vehicle keeps the number of tours, and the moved tour, naming its
/// new vehicle, is that vehicle's newest tour.
pub proof fn lemma_moved_tour_kept(
    before: Seq<VehicleData>,
    after: Seq<VehicleData>,
    t: TourData,
    tour_id: i32,
    new_vehicle_id: i32,
)
    requires
        tour_moved(before, after, t, tour_id, new_vehicle_id),
    ensures
        tours_of(after).len() == tours_of(before).len(),
        after[new_vehicle_id - 1].tours@.last() == moved_tour(t, new_vehicle_id),
        after[new_vehicle_id - 1].tours@.last().vehicle == new_vehicle_id,
{
    let o = t.vehicle - 1;
    let n = new_vehicle_id - 1;
    let k = choose|k: int| {
        &&& is_first_tour_index(before[o].tours@, tour_id, k)
        &&& before[o].tours@[k] == t
        &&& if o == n {
            after[n].tours@ == before[o].tours@.remove(k).push(moved_tour(t, new_vehicle_id))
        } else {
            &&& after[o].tours@ == before[o].tours@.remove(k)
            &&& after[n].tours@ == before[n].tours@.push(moved_tour(t, new_vehicle_id))
        }
    };
    if o == n {
        assert(after =~= before.update(n, after[n]));
        lemma_tours_of_update_len(before, n, after[n]);
    } else {
        let mid = before.update(o, after[o]);
        assert(after =~= mid.update(n, after[n]));
        lemma_tours_of_update_len(before, o, after[o]);
        lemma_tours_of_update_len(mid, n, after[n]);
    }
}

/// Adding a pickup and a drop-off to one tour of a vehicle adds these two to the vehicle's
/// events, two more than it had, and keeps every event it had.
pub proof fn lemma_event_pair_adds_two(
    before: Seq<TourData>,
    after: Seq<TourData>,
    k: int,
    pickup: EventData,
    dropoff: EventData,
)
    requires
        0 <= k < before.len(),
        after.len() == before.len(),
        forall|j: int| 0 <= j < before.len() && j != k ==> after[j] == before[j],
        after[k].events@ == before[k].events@.push(pickup).push(dropoff),
    ensures
        events_of(after).len() == events_of(before).len() + 2,
        events_of(after).contains(pickup),
        events_of(after).contains(dropoff),
        forall|e: EventData| events_of(before).contains(e) ==> events_of(after).contains(e),
    decreases before.len(),
{
    let pb = before.drop_last();
    let pa = after.drop_last();
    if k < before.len() - 1 {
        assert forall|j: int| 0 <= j < pb.len() && j != k implies pa[j] == pb[j] by {
            assert(pa[j] == after[j]);
            assert(pb[j] == before[j]);
        }
        assert(pa[k] == after[k] && pb[k] == before[k]);
        lemma_event_pair_adds_two(pb, pa, k, pickup, dropoff);
        assert(after.last() == before.last());
        let tail = before.last().events@;
        assert forall|e: EventData| events_of(before).contains(e) implies events_of(after).contains(e) by {
            let i = choose|i: int| 0 <= i < events_of(before).len() && events_of(before)[i] == e;
            if i < events_of(pb).len() {
                assert(events_of(pb)[i] == e);
                assert(events_of(pb).contains(e));
                let m = choose|m: int| 0 <= m < events_of(pa).len() && events_of(pa)[m] == e;
                assert(events_of(after)[m] == e);
            } else {
                assert(tail[i - events_of(pb).len()] == e);
                assert(events_of(after)[events_of(pa).len() + i - events_of(pb).len()] == e);
            }
        }
        let mp = choose|m: int| 0 <= m < events_of(pa).len() && events_of(pa)[m] == pickup;
        assert(events_of(after)[mp] == pickup);
        let md = choose|m: int| 0 <= m < events_of(pa).len() && events_of(pa)[m] == dropoff;
        assert(events_of(after)[md] == dropoff);
    } else {
        assert(pa =~= pb) by {
            assert forall|j: int| 0 <= j < pb.len() implies pa[j] == pb[j] by {
                assert(pa[j] == after[j]);
                assert(pb[j] == before[j]);
            }
        }
        let n: int = events_of(pb).len() as int;
        let m: int = before[k].events@.len() as int;
        assert(after.last() == after[k]);
        assert(before.last() == before[k]);
        assert(events_of(after) == events_of(pb) + after[k].events@);
        assert(events_of(after)[n + m] == pickup);
        assert(events_of(after)[n + m + 1] == dropoff);
        assert forall|e: EventData| events_of(before).contains(e) implies events_of(after).contains(e) by {
            let i = choose|i: int| 0 <= i < events_of(before).len() && events_of(before)[i] == e;
            assert(events_of(after)[i] == e);
        }
    }
}

/// The two events of one request, as the database stored them.
#[derive(Clone, Copy, Debug)]
pub struct RequestEvents {
    pub start_event_id: i32,
    pub target_event_id: i32,
    pub start_coordinates: Coordinates,
    pub target_coordinates: Coordinates,
    pub sched_t_start: i64,
    pub comm_t_start: i64,
    pub sched_t_target: i64,
    pub comm_t_target: i64,
    pub customer: i32,
    pub passengers: i32,
    pub wheelchairs: i32,
    pub luggage: i32,
    pub request_id: i32,
}

/// The pickup event of the request, in the tour `tour`, at the address `address_id`.
pub open spec fn pickup_event(ev: RequestEvents, tour: i32, address_id: i32) -> EventData {
    EventData {
        id: ev.start_event_id,
        coordinates: ev.start_coordinates,
        scheduled_time: ev.sched_t_start,
        communicated_time: ev.comm_t_start,
        customer: ev.customer,
        tour: tour,
        passengers: ev.passengers,
        wheelchairs: ev.wheelchairs,
        luggage: ev.luggage,
        request_id: ev.request_id,
        is_pickup: true,
        address_id: address_id,
    }
}

/// The drop-off event of the request, in the tour `tour`, at the address `address_id`.
pub open spec fn dropoff_event(ev: RequestEvents, tour: i32, address_id: i32) -> EventData {
    EventData {
        id: ev.target_event_id,
        coordinates: ev.target_coordinates,
        scheduled_time: ev.sched_t_target,
        communicated_time: ev.comm_t_target,
        customer: ev.customer,
        tour: tour,
        passengers: ev.passengers,
        wheelchairs: ev.wheelchairs,
        luggage: ev.luggage,
        request_id: ev.request_id,
        is_pickup: false,
        address_id: address_id,
    }
}

/// Booking a request into a tour (as `add_event_pair` does) appends two events to the tour's
/// events and keeps the others: first the pickup, at the request's start point with its start
/// times, then the drop-off, at its target point with its target times; both carry the
/// request's customer, load and request id, name the tour and the address.
pub proof fn lemma_request_events_appended(before: Seq<EventData>, ev: RequestEvents, tour: i32, address_id: i32)
    ensures
        ({
            let after = before.push(pickup_event(ev, tour, address_id)).push(dropoff_event(ev, tour, address_id));
            let (p, d) = (after[before.len() as int], after[before.len() + 1 as int]);
            &&& after.len() == before.len() + 2
            &&& forall|j: int| 0 <= j < before.len() ==> #[trigger] after[j] == before[j]
            &&& p.id == ev.start_event_id && d.id == ev.target_event_id
            &&& p.coordinates == ev.start_coordinates && d.coordinates == ev.target_coordinates
            &&& p.scheduled_time == ev.sched_t_start && p.communicated_time == ev.comm_t_start
            &&& d.scheduled_time == ev.sched_t_target && d.communicated_time == ev.comm_t_target
            &&& p.is_pickup && !d.is_pickup
            &&& p.customer == ev.customer && d.customer == ev.customer
            &&& p.tour == tour && d.tour == tour
            &&& p.passengers == ev.passengers && d.passengers == ev.passengers
            &&& p.wheelchairs == ev.wheelchairs && d.wheelchairs == ev.wheelchairs
            &&& p.luggage == ev.luggage && d.luggage == ev.luggage
            &&& p.request_id == ev.request_id && d.request_id == ev.request_id
            &&& p.address_id == address_id && d.address_id == address_id
        }),
{
    let mid = before.push(pickup_event(ev, tour, address_id));
    let after = mid.push(dropoff_event(ev, tour, address_id));
    assert(after[before.len() as int] == mid[before.len() as int]);
    assert forall|j: int| 0 <= j < before.len() implies #[trigger] after[j] == before[j] by {
        assert(after[j] == mid[j]);
    }
}

/// The address has these four parts.
pub open spec fn address_is(a: AddressData, zip_code: Seq<char>, city: Seq<char>, street: Seq<char>, house_nr: Seq<char>) -> bool {
    a.zip_code@ == zip_code && a.city@ == city && a.street@ == street && a.house_nr@ == house_nr
}

/// The first position of an address with these four parts, if any.
pub open spec fn first_address_index(
    s: Seq<AddressData>,
    zip_code: Seq<char>,
    city: Seq<char>,
    street: Seq<char>,
    house_nr: Seq<char>,
) -> Option<int>
    decreases s.len(),
{
    if s.len() == 0 {
        None
    } else {
        match first_address_index(s.drop_last(), zip_code, city, street, house_nr) {
            Some(k) => Some(k),
            None => if address_is(s.last(), zip_code, city, street, house_nr) {
                Some(s.len() - 1)
            } else {
                None
            },
        }
    }
}

/// Once a prefix holds a matching address, every longer prefix finds the same one.
proof fn lemma_first_address_prefix(
    s: Seq<AddressData>,
    zip_code: Seq<char>,
    city: Seq<char>,
    street: Seq<char>,
    house_nr: Seq<char>,
    i: int,
)
    requires
        0 <= i <= s.len(),
        first_address_index(s.take(i), zip_code, city, street, house_nr) is Some,
    ensures
        first_address_index(s, zip_code, city, street, house_nr) == first_address_index(
            s.take(i),
            zip_code,
            city,
            street,
            house_nr,
        ),
    decreases s.len() - i,
{
    if i < s.len() {
        assert(s.take(i + 1).drop_last() =~= s.take(i));
        lemma_first_address_prefix(s, zip_code, city, street, house_nr, i + 1);
    } else {
        assert(s.take(i) =~= s);
    }
}

/// A found address position lies within the list and matches.
proof fn lemma_first_address_found(
    s: Seq<AddressData>,
    zip_code: Seq<char>,
    city: Seq<char>,
    street: Seq<char>,
    house_nr: Seq<char>,
)
    requires
        first_address_index(s, zip_code, city, street, house_nr) is Some,
    ensures
        ({
            let k = first_address_index(s, zip_code, city, street, house_nr).unwrap();
            0 <= k < s.len() && address_is(s[k], zip_code, city, street, house_nr)
        }),
    decreases s.len(),
{
    if first_address_index(s.drop_last(), zip_code, city, street, house_nr) is Some {
        lemma_first_address_found(s.drop_last(), zip_code, city, street, house_nr);
    }
}

/// Looking up an address in `before` answered `r` and left `after`: a known address answers
/// its id and changes nothing; an unknown one is appended with the next id, which is answered.
pub open spec fn address_lookup(
    before: Seq<AddressData>,
    after: Seq<AddressData>,
    zip_code: Seq<char>,
    city: Seq<char>,
    street: Seq<char>,
    house_nr: Seq<char>,
    r: i32,
) -> bool {
    match first_address_index(before, zip_code, city, street, house_nr) {
        Some(k) => r == before[k].id && after == before,
        None => {
            &&& r == before.len() + 1
            &&& after.len() == before.len() + 1
            &&& forall|j: int| 0 <= j < before.len() ==> after[j] == before[j]
            &&& after.last().id == r
            &&& address_is(after.last(), zip_code, city, street, house_nr)
        },
    }
}

/// Asking twice for the same address answers the same id both times, and the second ask
/// changes nothing.
pub proof fn lemma_address_lookup_idempotent(
    before: Seq<AddressData>,
    mid: Seq<AddressData>,
    after: Seq<AddressData>,
    zip_code: Seq<char>,
    city: Seq<char>,
    street: Seq<char>,
    house_nr: Seq<char>,
    r1: i32,
    r2: i32,
)
    requires
        address_lookup(before, mid, zip_code, city, street, house_nr, r1),
        address_lookup(mid, after, zip_code, city, street, house_nr, r2),
    ensures
        r2 == r1,
        after == mid,
{
    match first_address_index(before, zip_code, city, street, house_nr) {
        Some(k) => {},
        None => {
            assert(mid.drop_last() =~= before);
            assert(first_address_index(mid, zip_code, city, street, house_nr) == Some((mid.len() - 1) as int));
        },
    }
}

/// `after` is `before` with `user` stored under its id, in place of any user stored there.
pub open spec fn user_upserted(before: Map<i32, UserData>, after: Map<i32, UserData>, user: UserData) -> bool {
    after == before.insert(user.id, user)
}

/// Once a user is recorded, another user with the same name, or with the same email address,
/// is taken, and asking to create it is a conflict.
pub proof fn lemma_recorded_user_taken(before: Map<i32, UserData>, after: Map<i32, UserData>, user: UserData, other: Seq<char>)
    requires
        user_upserted(before, after, user),
    ensures
        user_taken(after, user.name@, other),
        user_taken(after, other, user.email@),
{
    assert(after.contains_key(user.id) && after[user.id] == user);
}

/// Once a vehicle is recorded last, its license plate is taken, and asking to create another
/// vehicle with it is a conflict.
pub proof fn lemma_recorded_plate_taken(vehicles: Seq<VehicleData>)
    requires
        vehicles.len() > 0,
    ensures
        plate_taken(vehicles, vehicles.last().license_plate@),
{
    assert(vehicles[vehicles.len() - 1] == vehicles.last());
}

/// Once a zone is recorded, its name is taken, and asking to create another zone with it is a
/// conflict.
pub proof fn lemma_recorded_zone_taken(zones: Seq<ZoneData>, zone: ZoneData)
    ensures
        zone_taken(zones.push(zone), zone.name@),
{
    assert(zones.push(zone)[zones.len() as int] == zone);
}

/// Once a company is recorded, its name is taken, and asking to create another company with it
/// is a conflict.
pub proof fn lemma_recorded_company_taken(companies: Seq<CompanyData>, company: CompanyData)
    ensures
        company_taken(companies.push(company), company.name@),
{
    assert(companies.push(company)[companies.len() as int] == company);
}

/// The position of the first tour with this id.
pub(crate) fn first_tour_position(tours: &Vec<TourData>, tour_id: i32) -> (r: Option<usize>)
    ensures
        match r {
            Some(k) => is_first_tour_index(tours@, tour_id, k as int) && first_tour_with_id(tours@, tour_id) == Some(
                tours@[k as int],
            ),
            None => first_tour_with_id(tours@, tour_id) is None,
        },
{
    let ghost ts = tours@;
    let mut i: usize = 0;
    assert(ts.take(0) =~= Seq::<TourData>::empty());
    while i < tours.len()
        invariant
            ts == tours@,
            i <= ts.len(),
            first_tour_with_id(ts.take(i as int), tour_id) is None,
            forall|j: int| 0 <= j < i ==> ts[j].id != tour_id,
        decreases ts.len() - i,
    {
        assert(ts.take(i + 1).drop_last() =~= ts.take(i as int));
        if tours[i].id == tour_id {
            proof {
                assert(ts.take(i + 1).last() == ts[i as int]);
                crate::data::lemma_first_tour_prefix(ts, tour_id, i + 1);
            }
            return Some(i);
        }
        i += 1;
    }
    assert(ts.take(ts.len() as int) =~= ts);
    None
}

/// The id the placeholder address (parts "zip_code", "city", "street", "house_nr") has or
/// gets.
pub open spec fn placeholder_address_id(s: Seq<AddressData>) -> i32 {
    match first_address_index(s, "zip_code"@, "city"@, "street"@, "house_nr"@) {
        Some(a) => s[a].id,
        None => (s.len() + 1) as i32,
    }
}

impl Data {
    /// Whether a zone with this id exists.
    pub fn has_zone(&self, id: i32) -> (r: bool)
        ensures
            r == zone_known(self.zones@, id),
    {
        let mut i: usize = 0;
        while i < self.zones.len()
            invariant
                i <= self.zones@.len(),
                forall|k: int| 0 <= k < i ==> (#[trigger] self.zones@[k]).id != id,
            decreases self.zones@.len() - i,
        {
            if self.zones[i].id == id {
                return true;
            }
            i += 1;
        }
        false
    }

    /// Whether a user with this id exists.
    pub fn has_user(&self, id: i32) -> (r: bool)
        ensures
            r == user_known(self.users@, id),
    {
        broadcast use vstd::std_specs::hash::group_hash_axioms;

        self.users.contains_key(&id)
    }

    /// Checks a new vehicle: its company must exist and its plate must be new. It gets 3
    /// seats, no wheelchair places and no storage space.
    pub fn plan_create_vehicle(&self, license_plate: &String, company: i32) -> (r: Result<NewVehicle, Status>)
        ensures
            match r {
                Ok(n) => {
                    &&& 1 <= company <= self.companies@.len()
                    &&& !plate_taken(self.vehicles@, license_plate@)
                    &&& n.license_plate@ == license_plate@
                    &&& n.company == company
                    &&& n.seats == 3
                    &&& n.wheelchair_capacity == 0
                    &&& n.storage_space == 0
                },
                Err(e) => if company < 1 || company > self.companies@.len() {
                    e == Status::ExpectationFailed
                } else {
                    e == Status::Conflict && plate_taken(self.vehicles@, license_plate@)
                },
            },
    {
        if company < 1 || self.companies.len() < company as usize {
            return Err(Status::ExpectationFailed);
        }
        let mut i: usize = 0;
        while i < self.vehicles.len()
            invariant
                1 <= company <= self.companies@.len(),
                i <= self.vehicles@.len(),
                forall|j: int| 0 <= j < i ==> (#[trigger] self.vehicles@[j]).license_plate@ != license_plate@,
            decreases self.vehicles@.len() - i,
        {
            if self.vehicles[i].license_plate == *license_plate {
                assert(self.vehicles@[i as int].license_plate@ == license_plate@);
                assert(plate_taken(self.vehicles@, license_plate@));
                return Err(Status::Conflict);
            }
            i += 1;
        }
        Ok(NewVehicle {
            license_plate: license_plate.clone(),
            company,
            seats: 3,
            wheelchair_capacity: 0,
            storage_space: 0,
        })
    }

    /// Records a vehicle the database stored under `id`, with no availability and no tours.
    pub fn add_vehicle(&mut self, id: i32, vehicle: NewVehicle) -> (r: Status)
        ensures
            r == Status::Created,
            final(self).vehicles@.len() == old(self).vehicles@.len() + 1,
            forall|i: int| 0 <= i < old(self).vehicles@.len() ==> final(self).vehicles@[i] == old(self).vehicles@[i],
            ({
                let v = final(self).vehicles@.last();
                &&& v.id == id
                &&& v.license_plate == vehicle.license_plate
                &&& v.company == vehicle.company
                &&& v.seats == vehicle.seats
                &&& v.wheelchair_capacity == vehicle.wheelchair_capacity
                &&& v.storage_space == vehicle.storage_space
                &&& v.availability@.len() == 0
                &&& v.tours@.len() == 0
            }),
            final(self).users == old(self).users,
            final(self).zones == old(self).zones,
            final(self).companies == old(self).companies,
            final(self).addresses == old(self).addresses,
            final(self).next_request_id == old(self).next_request_id,
            old(self).wf() && id == old(self).vehicles@.len() + 1 ==> final(self).wf(),
    {
        self.vehicles.push(VehicleData {
            id,
            license_plate: vehicle.license_plate,
            company: vehicle.company,
            seats: vehicle.seats,
            wheelchair_capacity: vehicle.wheelchair_capacity,
            storage_space: vehicle.storage_space,
            availability: Vec::new(),
            tours: Vec::new(),
        });
        proof {
            if old(self).wf() {
                lemma_tours_name_kept(old(self).vehicles@, self.vehicles@);
            }
        }
        Status::Created
    }

    /// Checks a new user: neither name nor email address may be taken, and the roles must fit.
    pub fn plan_create_user(
        &self,
        name: &String,
        is_driver: bool,
        is_disponent: bool,
        company: Option<i32>,
        is_admin: bool,
        email: &String,
    ) -> (r: Result<(), Status>)
        ensures
            r == if user_taken(self.users@, name@, email@) {
                Err(Status::Conflict)
            } else if !role_valid(is_driver, is_disponent, is_admin, company) {
                Err(Status::BadRequest)
            } else {
                Ok(())
            },
    {
        broadcast use vstd::std_specs::hash::group_hash_axioms;
        broadcast use vstd::seq_lib::group_seq_properties;

        for u in it: self.users.values()
            invariant
                it.seq().unref().to_set() == self.users@.values(),
                forall|x: UserData| #[trigger] self.users@.values().contains(x) ==> exists|j: int| 0 <= j < it.seq().len() && *it.seq()[j] == x,
                forall|j: int| 0 <= j < it.index() ==> (*#[trigger] it.seq()[j]).name@ != name@ && (*it.seq()[j]).email@ != email@,
        {
            if u.name == *name || u.email == *email {
                proof {
                    assert(it.seq().unref()[it.index()] == *u);
                    assert(it.seq().unref().contains(*u));
                    assert(self.users@.values().contains(*u));
                    let k = choose|k: i32| self.users@.contains_key(k) && self.users@[k] == *u;
                    assert(self.users@[k].name@ == name@ || self.users@[k].email@ == email@);
                }
                return Err(Status::Conflict);
            }
        }
        proof {
            assert forall|k: i32| self.users@.contains_key(k) implies !((#[trigger] self.users@[k]).name@ == name@ || self.users@[k].email@
                == email@) by {
                assert(self.users@.values().contains(self.users@[k]));
            }
        }
        if !is_user_role_valid(is_driver, is_disponent, is_admin, company) {
            return Err(Status::BadRequest);
        }
        Ok(())
    }

    /// Records a user under its id, in place of any user stored there.
    pub fn upsert_user(&mut self, user: UserData) -> (r: Status)
        ensures
            r == Status::Created,
            user_upserted(old(self).users@, final(self).users@, user),
            final(self).vehicles == old(self).vehicles,
            final(self).zones == old(self).zones,
            final(self).companies == old(self).companies,
            final(self).addresses == old(self).addresses,
            final(self).next_request_id == old(self).next_request_id,
            old(self).wf() ==> final(self).wf(),
    {
        broadcast use vstd::std_specs::hash::group_hash_axioms;

        let id = user.id;
        self.users.insert(id, user);
        Status::Created
    }

    /// Checks a new zone: its name must be new and its area must have been understood.
    pub fn plan_create_zone(&self, name: &String, area_is_valid: bool) -> (r: Result<(), Status>)
        ensures
            r == if zone_taken(self.zones@, name@) {
                Err(Status::Conflict)
            } else if !area_is_valid {
                Err(Status::BadRequest)
            } else {
                Ok(())
            },
    {
        let mut i: usize = 0;
        while i < self.zones.len()
            invariant
                i <= self.zones@.len(),
                forall|j: int| 0 <= j < i ==> (#[trigger] self.zones@[j]).name@ != name@,
            decreases self.zones@.len() - i,
        {
            if self.zones[i].name == *name {
                assert(self.zones@[i as int].name@ == name@);
                return Err(Status::Conflict);
            }
            i += 1;
        }
        if !area_is_valid {
            return Err(Status::BadRequest);
        }
        Ok(())
    }

    /// Records a zone the database stored under `id`.
    pub fn add_zone(&mut self, id: i32, name: String, area: String) -> (r: Status)
        ensures
            r == Status::Created,
            final(self).zones@ == old(self).zones@.push(ZoneData { area, name, id }),
            final(self).users == old(self).users,
            final(self).vehicles == old(self).vehicles,
            final(self).companies == old(self).companies,
            final(self).addresses == old(self).addresses,
            final(self).next_request_id == old(self).next_request_id,
            old(self).wf() ==> final(self).wf(),
    {
        self.zones.push(ZoneData { area, name, id });
        Status::Created
    }

    /// Checks a new company: its zone must exist and its name must be new.
    pub fn plan_create_company(&self, name: &String, zone: i32) -> (r: Result<(), Status>)
        ensures
            r == if !zone_known(self.zones@, zone) {
                Err(Status::ExpectationFailed)
            } else if company_taken(self.companies@, name@) {
                Err(Status::Conflict)
            } else {
                Ok(())
            },
    {
        if !self.has_zone(zone) {
            return Err(Status::ExpectationFailed);
        }
        let mut i: usize = 0;
        while i < self.companies.len()
            invariant
                zone_known(self.zones@, zone),
                i <= self.companies@.len(),
                forall|j: int| 0 <= j < i ==> (#[trigger] self.companies@[j]).name@ != name@,
            decreases self.companies@.len() - i,
        {
            if self.companies[i].name == *name {
                assert(self.companies@[i as int].name@ == name@);
                return Err(Status::Conflict);
            }
            i += 1;
        }
        Ok(())
    }

    /// Records a company the database stored under `id`.
    pub fn add_company(&mut self, id: i32, name: String, zone: i32, central_coordinates: Coordinates) -> (r: Status)
        ensures
            r == Status::Created,
            final(self).companies@ == old(self).companies@.push(CompanyData { id, central_coordinates, zone, name }),
            final(self).users == old(self).users,
            final(self).vehicles == old(self).vehicles,
            final(self).zones == old(self).zones,
            final(self).addresses == old(self).addresses,
            final(self).next_request_id == old(self).next_request_id,
            old(self).wf() && id == old(self).companies@.len() + 1 ==> final(self).wf(),
    {
        self.companies.push(CompanyData { id, central_coordinates, zone, name });
        Status::Created
    }

    /// What adding the window from `start_time` to `end_time` to the vehicle's availability
    /// answers at time `now`: a window that cannot be booked is refused as not acceptable, a
    /// vehicle id that names no vehicle (0 among them) as a failed expectation; otherwise the
    /// answer is the vehicle's plan.
    pub open spec fn availability_plan_fits(
        &self,
        start_time: i64,
        end_time: i64,
        vehicle: i32,
        now: i64,
        r: Result<AvailabilityAddition, Status>,
    ) -> bool {
        match r {
                Ok(plan) => {
                    &&& crate::clock::is_valid_at_spec(window(start_time, end_time), now)
                    &&& 1 <= vehicle <= self.vehicles@.len()
                    &&& plan.matches_scan(
                        crate::availability::addition_scan(
                            self.vehicles@[vehicle - 1].availability@,
                            window(start_time, end_time),
                            Seq::empty(),
                        ),
                    )
                },
                Err(e) => if !crate::clock::is_valid_at_spec(window(start_time, end_time), now) {
                    e == Status::NotAcceptable
                } else {
                    e == Status::ExpectationFailed && !(1 <= vehicle <= self.vehicles@.len())
                },
            }
    }

    /// What taking the window from `start_time` to `end_time` away from the vehicle's
    /// availability answers at time `now`: an unknown vehicle is not found, a vehicle with a
    /// tour in the window or a window that cannot be booked is refused as not acceptable, and
    /// a window that overlaps no availability is answered with no content; otherwise the
    /// answer is the vehicle's plan.
    pub open spec fn removal_plan_fits(
        &self,
        start_time: i64,
        end_time: i64,
        vehicle_id: i32,
        now: i64,
        r: Result<AvailabilityRemoval, Status>,
    ) -> bool {
        let w = window(start_time, end_time);
        let known = 1 <= vehicle_id <= self.vehicles@.len();
        match r {
            Ok(plan) => {
                &&& known
                &&& !has_conflict(self.vehicles@[vehicle_id - 1], w, 0, true)
                &&& crate::clock::is_valid_at_spec(w, now)
                &&& (plan.cuts@, plan.deletions@, plan.split, plan.touched) == removal_scan(
                    self.vehicles@[vehicle_id - 1].availability@,
                    w,
                    Seq::empty(),
                    Seq::empty(),
                    false,
                )
                &&& plan.touched
            },
            Err(e) => if !known {
                e == Status::NotFound
            } else if has_conflict(self.vehicles@[vehicle_id - 1], w, 0, true) || !crate::clock::is_valid_at_spec(
                w,
                now,
            ) {
                e == Status::NotAcceptable
            } else {
                e == Status::NoContent && !removal_scan(
                    self.vehicles@[vehicle_id - 1].availability@,
                    w,
                    Seq::empty(),
                    Seq::empty(),
                    false,
                ).3
            },
        }
    }

    /// Decides, at time `now`, what taking the window away from the vehicle's availability
    /// does.
    pub fn plan_remove_availability_at(&self, start_time: i64, end_time: i64, vehicle_id: i32, now: i64) -> (r: Result<
        AvailabilityRemoval,
        Status,
    >)
        requires
            self.wf(),
            vehicle_id >= 0,
        ensures
            self.removal_plan_fits(start_time, end_time, vehicle_id, now, r),
    {
        match self.is_vehicle_idle_during(vehicle_id, start_time, end_time) {
            Ok(idle) => if !idle {
                return Err(Status::NotAcceptable);
            },
            Err(e) => return Err(e),
        }
        let to_remove_interval = Interval::new(start_time, end_time);
        if !crate::clock::is_valid_at(&to_remove_interval, now) {
            return Err(Status::NotAcceptable);
        }
        let plan = self.vehicles[(vehicle_id - 1) as usize].plan_removal(&to_remove_interval);
        if !plan.touched {
            return Err(Status::NoContent);
        }
        Ok(plan)
    }

    /// Decides, now, what taking the window away from the vehicle's availability does.
    pub fn plan_remove_availability(&self, start_time: i64, end_time: i64, vehicle_id: i32) -> (r: Result<
        AvailabilityRemoval,
        Status,
    >)
        requires
            self.wf(),
            vehicle_id >= 0,
        ensures
            exists|now: i64| now >= 0 && #[trigger] self.removal_plan_fits(start_time, end_time, vehicle_id, now, r),
    {
        let now = crate::clock::current_time();
        self.plan_remove_availability_at(start_time, end_time, vehicle_id, now)
    }

    /// Moves the tour `tour_id` to the vehicle `new_vehicle_id`: it leaves its vehicle's tours
    /// and is appended to the new vehicle's tours. Answers `Accepted`, or `NotFound` for an
    /// unknown vehicle or tour.
    pub fn change_vehicle_for_tour(&mut self, tour_id: i32, new_vehicle_id: i32) -> (r: Status)
        requires
            old(self).wf(),
            new_vehicle_id >= 0 || first_tour_with_id(old(self).all_tours(), tour_id) is None,
        ensures
            final(self).wf(),
            final(self).users == old(self).users,
            final(self).zones == old(self).zones,
            final(self).companies == old(self).companies,
            final(self).addresses == old(self).addresses,
            final(self).next_request_id == old(self).next_request_id,
            ({
                let before = old(self).vehicles@;
                let after = final(self).vehicles@;
                let found = first_tour_with_id(old(self).all_tours(), tour_id);
                if !(1 <= new_vehicle_id <= before.len()) || found is None {
                    r == Status::NotFound && after == before
                } else {
                    r == Status::Accepted && tour_moved(before, after, found.unwrap(), tour_id, new_vehicle_id)
                }
            }),
    {
        proof {
            self.lemma_max_vehicle_id();
        }
        if self.max_vehicle_id() < new_vehicle_id || new_vehicle_id == 0 {
            return Status::NotFound;
        }
        let ghost found = first_tour_with_id(self.all_tours(), tour_id);
        let old_vehicle_id = match self.get_tour(tour_id) {
            Ok(tour) => tour.vehicle,
            Err(e) => return e,
        };
        proof {
            lemma_first_tour_location(self.vehicles@, tour_id);
        }
        let o = (old_vehicle_id - 1) as usize;
        let pos = match first_tour_position(&self.vehicles[o].tours, tour_id) {
            Some(p) => p,
            None => return Status::NotFound,
        };
        let ghost before = self.vehicles@;
        let mut moved_tour = self.vehicles[o].tours.remove(pos);
        moved_tour.vehicle = new_vehicle_id;
        let n = (new_vehicle_id - 1) as usize;
        self.vehicles[n].tours.push(moved_tour);
        proof {
            let after = self.vehicles@;
            assert forall|i: int, j: int| 0 <= i < after.len() && 0 <= j < after[i].tours@.len() implies #[trigger] after[i].tours@[j].vehicle == i + 1 by {
                if i == n {
                    if j < after[i].tours@.len() - 1 {
                        if i == o {
                            assert(after[i].tours@[j] == before[i].tours@.remove(pos as int)[j]);
                        } else {
                            assert(after[i].tours@[j] == before[i].tours@[j]);
                        }
                    }
                } else if i == o {
                    assert(after[i].tours@[j] == before[i].tours@.remove(pos as int)[j]);
                } else {
                    assert(after[i] == before[i]);
                }
            }
            assert(tours_name_their_vehicle(after));
        }
        Status::Accepted
    }

    /// What asking to add a request's events to a tour answers at time `now`: windows that
    /// cannot be booked are refused as not acceptable; a customer with no user of that id, an
    /// unknown vehicle, or a named tour the vehicle does not have, as a failed expectation;
    /// otherwise the answer names the tour to use, or none when a new tour is to be made.
    pub open spec fn tour_plan_fits(
        &self,
        tour_id: Option<i32>,
        departure: i64,
        arrival: i64,
        vehicle: i32,
        customer: i32,
        sched_t_start: i64,
        sched_t_target: i64,
        now: i64,
        r: Result<Option<i32>, Status>,
    ) -> bool {
        let valid = crate::clock::is_valid_at_spec(window(departure, arrival), now)
            && crate::clock::is_valid_at_spec(window(sched_t_start, sched_t_target), now);
        let unknown = !user_known(self.users@, customer) || !(1 <= vehicle <= self.vehicles@.len()) || (tour_id matches Some(
            t,
        ) && first_tour_with_id(self.vehicles@[vehicle - 1].tours@, t) is None);
        r == if !valid {
            Err(Status::NotAcceptable)
        } else if unknown {
            Err(Status::ExpectationFailed)
        } else {
            Ok(tour_id)
        }
    }

    /// Checks, at time `now`, a request to add a pickup and a drop-off to the tour `tour_id`
    /// of the vehicle, or to a new tour of it when `tour_id` is `None`.
    pub fn plan_insert_or_addto_tour_at(
        &self,
        tour_id: Option<i32>,
        departure: i64,
        arrival: i64,
        vehicle: i32,
        customer: i32,
        sched_t_start: i64,
        sched_t_target: i64,
        now: i64,
    ) -> (r: Result<Option<i32>, Status>)
        ensures
            self.tour_plan_fits(tour_id, departure, arrival, vehicle, customer, sched_t_start, sched_t_target, now, r),
    {
        if !crate::clock::is_valid_at(&Interval::new(departure, arrival), now) || !crate::clock::is_valid_at(
            &Interval::new(sched_t_start, sched_t_target),
            now,
        ) {
            return Err(Status::NotAcceptable);
        }
        if !self.has_user(customer) || vehicle < 1 || self.vehicles.len() < vehicle as usize {
            return Err(Status::ExpectationFailed);
        }
        match tour_id {
            Some(t_id) => {
                if first_tour_position(&self.vehicles[(vehicle - 1) as usize].tours, t_id).is_none() {
                    return Err(Status::ExpectationFailed);
                }
                Ok(Some(t_id))
            },
            None => Ok(None),
        }
    }

    /// Checks, now, a request to add a pickup and a drop-off to a tour of the vehicle.
    pub fn plan_insert_or_addto_tour(
        &self,
        tour_id: Option<i32>,
        departure: i64,
        arrival: i64,
        vehicle: i32,
        customer: i32,
        sched_t_start: i64,
        sched_t_target: i64,
    ) -> (r: Result<Option<i32>, Status>)
        ensures
            exists|now: i64|
                now >= 0 && #[trigger] self.tour_plan_fits(
                    tour_id,
                    departure,
                    arrival,
                    vehicle,
                    customer,
                    sched_t_start,
                    sched_t_target,
                    now,
                    r,
                ),
    {
        let now = crate::clock::current_time();
        self.plan_insert_or_addto_tour_at(tour_id, departure, arrival, vehicle, customer, sched_t_start, sched_t_target, now)
    }

    /// Records a tour the database stored under `id` as the vehicle's newest tour, without
    /// events.
    pub fn add_tour(&mut self, vehicle: i32, id: i32, departure: i64, arrival: i64)
        requires
            1 <= vehicle <= old(self).vehicles@.len(),
        ensures
            others_unchanged(old(self).vehicles@, final(self).vehicles@, vehicle - 1),
            same_but_tours(old(self).vehicles@[vehicle - 1], final(self).vehicles@[vehicle - 1]),
            final(self).vehicles@[vehicle - 1].tours@.len() == old(self).vehicles@[vehicle - 1].tours@.len() + 1,
            forall|j: int|
                0 <= j < old(self).vehicles@[vehicle - 1].tours@.len() ==> #[trigger] final(self).vehicles@[vehicle
                    - 1].tours@[j] == old(self).vehicles@[vehicle - 1].tours@[j],
            ({
                let t = final(self).vehicles@[vehicle - 1].tours@.last();
                t.id == id && t.departure == departure && t.arrival == arrival && t.vehicle == vehicle && t.events@.len()
                    == 0
            }),
            final(self).users == old(self).users,
            final(self).zones == old(self).zones,
            final(self).companies == old(self).companies,
            final(self).addresses == old(self).addresses,
            final(self).next_request_id == old(self).next_request_id,
            old(self).wf() ==> final(self).wf(),
    {
        let k = (vehicle - 1) as usize;
        self.vehicles[k].tours.push(TourData { id, departure, arrival, vehicle, events: Vec::new() });
        proof {
            if old(self).wf() {
                let before = old(self).vehicles@;
                let after = self.vehicles@;
                assert forall|i: int, j: int| 0 <= i < after.len() && 0 <= j < after[i].tours@.len() implies #[trigger] after[i].tours@[j].vehicle == i + 1 by {
                    if i != k && j < before[i].tours@.len() {
                        assert(after[i] == before[i]);
                    } else if i == k && j < before[i].tours@.len() {
                        assert(after[i].tours@[j] == before[i].tours@[j]);
                    }
                }
                assert(tours_name_their_vehicle(after));
            }
        }
    }

    /// The id of the address with these four parts; an address not known yet is appended
    /// with the next id (one more than the number of addresses).
    pub fn get_or_create_address(&mut self, zip_code: &str, city: &str, street: &str, house_nr: &str) -> (r: i32)
        requires
            old(self).addresses@.len() < i32::MAX,
        ensures
            address_lookup(old(self).addresses@, final(self).addresses@, zip_code@, city@, street@, house_nr@, r),
            final(self).users == old(self).users,
            final(self).vehicles == old(self).vehicles,
            final(self).zones == old(self).zones,
            final(self).companies == old(self).companies,
            final(self).next_request_id == old(self).next_request_id,
            old(self).wf() ==> final(self).wf(),
    {
        let zip_s = zip_code.to_owned();
        let city_s = city.to_owned();
        let street_s = street.to_owned();
        let house_s = house_nr.to_owned();
        let ghost s = self.addresses@;
        let mut i: usize = 0;
        assert(s.take(0) =~= Seq::<AddressData>::empty());
        while i < self.addresses.len()
            invariant
                s == self.addresses@,
                s == old(self).addresses@,
                zip_s@ == zip_code@,
                city_s@ == city@,
                street_s@ == street@,
                house_s@ == house_nr@,
                i <= s.len(),
                first_address_index(s.take(i as int), zip_code@, city@, street@, house_nr@) is None,
            decreases s.len() - i,
        {
            let a = &self.addresses[i];
            assert(s.take(i + 1).drop_last() =~= s.take(i as int));
            assert(s.take(i + 1).last() == s[i as int]);
            if a.zip_code == zip_s && a.city == city_s && a.street == street_s && a.house_nr == house_s {
                proof {
                    assert(address_is(s[i as int], zip_code@, city@, street@, house_nr@));
                    assert(first_address_index(s.take(i + 1), zip_code@, city@, street@, house_nr@) == Some(i as int));
                    lemma_first_address_prefix(s, zip_code@, city@, street@, house_nr@, i + 1);
                }
                return a.id;
            }
            i += 1;
        }
        assert(s.take(s.len() as int) =~= s);
        let id = self.addresses.len() as i32 + 1;
        let address = AddressData { id, zip_code: zip_s, city: city_s, street: street_s, house_nr: house_s };
        self.addresses.push(address);
        id
    }

    /// Records the pickup and the drop-off of a request, stored by the database, in the tour
    /// `tour_id` of the vehicle, at the placeholder address of four fixed parts.
    pub fn add_event_pair(&mut self, vehicle: i32, tour_id: i32, events: RequestEvents) -> (r: Status)
        requires
            1 <= vehicle <= old(self).vehicles@.len(),
            first_tour_with_id(old(self).vehicles@[vehicle - 1].tours@, tour_id) is Some,
            old(self).addresses@.len() < i32::MAX,
        ensures
            r == Status::Created,
            others_unchanged(old(self).vehicles@, final(self).vehicles@, vehicle - 1),
            same_but_tours(old(self).vehicles@[vehicle - 1], final(self).vehicles@[vehicle - 1]),
            exists|k: int| #[trigger] is_first_tour_index(old(self).vehicles@[vehicle - 1].tours@, tour_id, k) && {
                let before = old(self).vehicles@[vehicle - 1].tours@;
                let after = final(self).vehicles@[vehicle - 1].tours@;
                let address_id = placeholder_address_id(old(self).addresses@);
                &&& after.len() == before.len()
                &&& forall|j: int| 0 <= j < before.len() && j != k ==> #[trigger] after[j] == before[j]
                &&& after[k].id == before[k].id
                &&& after[k].departure == before[k].departure
                &&& after[k].arrival == before[k].arrival
                &&& after[k].vehicle == before[k].vehicle
                &&& after[k].events@ == before[k].events@.push(pickup_event(events, tour_id, address_id)).push(
                    dropoff_event(events, tour_id, address_id),
                )
            },
            final(self).users == old(self).users,
            final(self).zones == old(self).zones,
            final(self).companies == old(self).companies,
            final(self).next_request_id == old(self).next_request_id,
            old(self).wf() ==> final(self).wf(),
    {
        let address_id = self.get_or_create_address("zip_code", "city", "street", "house_nr");
        let v = (vehicle - 1) as usize;
        let k = match first_tour_position(&self.vehicles[v].tours, tour_id) {
            Some(k) => k,
            None => {
                assert(false);
                return Status::Created;
            },
        };
        let pickup = EventData {
            coordinates: events.start_coordinates,
            scheduled_time: events.sched_t_start,
            communicated_time: events.comm_t_start,
            customer: events.customer,
            tour: tour_id,
            passengers: events.passengers,
            wheelchairs: events.wheelchairs,
            luggage: events.luggage,
            request_id: events.request_id,
            id: events.start_event_id,
            is_pickup: true,
            address_id,
        };
        let dropoff = EventData {
            coordinates: events.target_coordinates,
            scheduled_time: events.sched_t_target,
            communicated_time: events.comm_t_target,
            customer: events.customer,
            tour: tour_id,
            passengers: events.passengers,
            wheelchairs: events.wheelchairs,
            luggage: events.luggage,
            request_id: events.request_id,
            id: events.target_event_id,
            is_pickup: false,
            address_id,
        };
        let ghost mid = self.vehicles@;
        self.vehicles[v].tours[k].events.push(pickup);
        self.vehicles[v].tours[k].events.push(dropoff);
        proof {
            if old(self).wf() {
                let after = self.vehicles@;
                assert forall|i: int, j: int| 0 <= i < after.len() && 0 <= j < after[i].tours@.len() implies #[trigger] after[i].tours@[j].vehicle == i + 1 by {
                    if i != v {
                        assert(after[i] == mid[i]);
                    } else if j != k {
                        assert(after[i].tours@[j] == mid[i].tours@[j]);
                    }
                }
                assert(tours_name_their_vehicle(after));
            }
        }
        Status::Created
    }

    /// Decides, at time `now`, what adding the window from `start_time` to `end_time` to the
    /// vehicle's availability does: the window must be bookable and the vehicle must exist.
    pub fn plan_create_availability_at(&self, start_time: i64, end_time: i64, vehicle: i32, now: i64) -> (r: Result<
        AvailabilityAddition,
        Status,
    >)
        ensures
            self.availability_plan_fits(start_time, end_time, vehicle, now, r),
    {
        let interval = Interval::new(start_time, end_time);
        if !crate::clock::is_valid_at(&interval, now) {
            return Err(Status::NotAcceptable);
        }
        if vehicle < 1 || self.vehicles.len() < vehicle as usize {
            return Err(Status::ExpectationFailed);
        }
        Ok(self.vehicles[(vehicle - 1) as usize].plan_addition(&interval))
    }

    /// Decides, now, what adding the window to the vehicle's availability does.
    pub fn plan_create_availability(&self, start_time: i64, end_time: i64, vehicle: i32) -> (r: Result<
        AvailabilityAddition,
        Status,
    >)
        ensures
            exists|now: i64| now >= 0 && #[trigger] self.availability_plan_fits(start_time, end_time, vehicle, now, r),
    {
        let now = crate::clock::current_time();
        self.plan_create_availability_at(start_time, end_time, vehicle, now)
    }

    /// Removes the listed entries from the availability of the vehicle with id `vehicle_id`.
    pub fn remove_availability_entries(&mut self, vehicle_id: i32, ids: &Vec<i32>)
        requires
            1 <= vehicle_id <= old(self).vehicles@.len(),
        ensures
            others_unchanged(old(self).vehicles@, final(self).vehicles@, vehicle_id - 1),
            same_but_availability(old(self).vehicles@[vehicle_id - 1], final(self).vehicles@[vehicle_id - 1]),
            final(self).vehicles@[vehicle_id - 1].availability@ == old(self).vehicles@[vehicle_id
                - 1].availability@.filter(not_listed(ids@)),
            final(self).users == old(self).users,
            final(self).zones == old(self).zones,
            final(self).companies == old(self).companies,
            final(self).addresses == old(self).addresses,
            final(self).next_request_id == old(self).next_request_id,
            old(self).wf() ==> final(self).wf(),
    {
        let k = (vehicle_id - 1) as usize;
        self.vehicles[k].remove_availability_entries(ids);
        proof {
            if old(self).wf() {
                lemma_tours_name_kept(old(self).vehicles@, self.vehicles@);
            }
        }
    }

    /// Gives the entry with id `id` of the vehicle's availability the window `interval`.
    pub fn set_availability_interval(&mut self, vehicle_id: i32, id: i32, interval: Interval)
        requires
            1 <= vehicle_id <= old(self).vehicles@.len(),
        ensures
            others_unchanged(old(self).vehicles@, final(self).vehicles@, vehicle_id - 1),
            same_but_availability(old(self).vehicles@[vehicle_id - 1], final(self).vehicles@[vehicle_id - 1]),
            final(self).vehicles@[vehicle_id - 1].availability@ == old(self).vehicles@[vehicle_id
                - 1].availability@.map_values(with_window(id, interval)),
            final(self).users == old(self).users,
            final(self).zones == old(self).zones,
            final(self).companies == old(self).companies,
            final(self).addresses == old(self).addresses,
            final(self).next_request_id == old(self).next_request_id,
            old(self).wf() ==> final(self).wf(),
    {
        let k = (vehicle_id - 1) as usize;
        self.vehicles[k].set_availability_interval(id, interval);
        proof {
            if old(self).wf() {
                lemma_tours_name_kept(old(self).vehicles@, self.vehicles@);
            }
        }
    }

    /// Stores `interval` under `id` in the vehicle's availability: `Created` for a new id;
    /// an id already there gets the new window and the answer `InternalServerError`.
    pub fn insert_availability_entry(&mut self, vehicle_id: i32, id: i32, interval: Interval) -> (r: Status)
        requires
            1 <= vehicle_id <= old(self).vehicles@.len(),
        ensures
            ({
                let before = old(self).vehicles@[vehicle_id - 1].availability@;
                let after = final(self).vehicles@[vehicle_id - 1].availability@;
                if exists|k: int| 0 <= k < before.len() && before[k].id == id {
                    r == Status::InternalServerError && after == before.map_values(with_window(id, interval))
                } else {
                    r == Status::Created && after == before.push(AvailabilityData { id, interval })
                }
            }),
            others_unchanged(old(self).vehicles@, final(self).vehicles@, vehicle_id - 1),
            same_but_availability(old(self).vehicles@[vehicle_id - 1], final(self).vehicles@[vehicle_id - 1]),
            final(self).users == old(self).users,
            final(self).zones == old(self).zones,
            final(self).companies == old(self).companies,
            final(self).addresses == old(self).addresses,
            final(self).next_request_id == old(self).next_request_id,
            old(self).wf() ==> final(self).wf(),
    {
        let k = (vehicle_id - 1) as usize;
        let r = self.vehicles[k].insert_availability_entry(id, interval);
        proof {
            if old(self).wf() {
                lemma_tours_name_kept(old(self).vehicles@, self.vehicles@);
            }
        }
        r
    }

    /// Records an addition to the vehicle's availability that the database carried out: for a
    /// merge, the listed entries are removed and the merged window is stored under `id`.
    pub fn apply_availability_addition(&mut self, vehicle: i32, plan: &AvailabilityAddition, id: i32) -> (r: Status)
        requires
            1 <= vehicle <= old(self).vehicles@.len(),
        ensures
            others_unchanged(old(self).vehicles@, final(self).vehicles@, vehicle - 1),
            same_but_availability(old(self).vehicles@[vehicle - 1], final(self).vehicles@[vehicle - 1]),
            ({
                let before = old(self).vehicles@[vehicle - 1].availability@;
                let after = final(self).vehicles@[vehicle - 1].availability@;
                match plan {
                    AvailabilityAddition::Covered => r == Status::Created && after == before,
                    AvailabilityAddition::Merge { remove_ids, merged } => {
                        let kept = before.filter(not_listed(remove_ids@));
                        if exists|k: int| 0 <= k < kept.len() && kept[k].id == id {
                            r == Status::InternalServerError && after == kept.map_values(with_window(id, *merged))
                        } else {
                            r == Status::Created && after == kept.push(AvailabilityData { id, interval: *merged })
                        }
                    },
                }
            }),
            final(self).users == old(self).users,
            final(self).zones == old(self).zones,
            final(self).companies == old(self).companies,
            final(self).addresses == old(self).addresses,
            final(self).next_request_id == old(self).next_request_id,
            old(self).wf() ==> final(self).wf(),
    {
        match plan {
            AvailabilityAddition::Covered => Status::Created,
            AvailabilityAddition::Merge { remove_ids, merged } => {
                self.remove_availability_entries(vehicle, remove_ids);
                self.insert_availability_entry(vehicle, id, *merged)
            },
        }
    }

    /// Records a removal from the vehicle's availability that the database carried out: the
    /// cuts are applied in order, then the listed entries are removed. The parts of a split
    /// window are added afterwards, each as a new window.
    pub fn apply_availability_removal(&mut self, vehicle_id: i32, plan: &AvailabilityRemoval)
        requires
            1 <= vehicle_id <= old(self).vehicles@.len(),
        ensures
            others_unchanged(old(self).vehicles@, final(self).vehicles@, vehicle_id - 1),
            same_but_availability(old(self).vehicles@[vehicle_id - 1], final(self).vehicles@[vehicle_id - 1]),
            final(self).vehicles@[vehicle_id - 1].availability@ == apply_cuts(
                old(self).vehicles@[vehicle_id - 1].availability@,
                plan.cuts@,
            ).filter(not_listed(plan.deletions@)),
            final(self).users == old(self).users,
            final(self).zones == old(self).zones,
            final(self).companies == old(self).companies,
            final(self).addresses == old(self).addresses,
            final(self).next_request_id == old(self).next_request_id,
            old(self).wf() ==> final(self).wf(),
    {
        let ghost start = self.vehicles@[vehicle_id - 1].availability@;
        let mut i: usize = 0;
        assert(plan.cuts@.take(0) =~= Seq::<(i32, Interval)>::empty());
        while i < plan.cuts.len()
            invariant
                1 <= vehicle_id <= self.vehicles@.len(),
                start == old(self).vehicles@[vehicle_id - 1].availability@,
                i <= plan.cuts@.len(),
                others_unchanged(old(self).vehicles@, self.vehicles@, vehicle_id - 1),
                same_but_availability(old(self).vehicles@[vehicle_id - 1], self.vehicles@[vehicle_id - 1]),
                self.vehicles@[vehicle_id - 1].availability@ == apply_cuts(start, plan.cuts@.take(i as int)),
                self.users == old(self).users,
                self.zones == old(self).zones,
                self.companies == old(self).companies,
                self.addresses == old(self).addresses,
                self.next_request_id == old(self).next_request_id,
                old(self).wf() ==> self.wf(),
            decreases plan.cuts@.len() - i,
        {
            let (id, iv) = plan.cuts[i];
            self.set_availability_interval(vehicle_id, id, iv);
            assert(plan.cuts@.take(i + 1).drop_last() =~= plan.cuts@.take(i as int));
            assert(plan.cuts@.take(i + 1).last() == plan.cuts@[i as int]);
            i += 1;
        }
        assert(plan.cuts@.take(plan.cuts@.len() as int) =~= plan.cuts@);
        self.remove_availability_entries(vehicle_id, &plan.deletions);
    }

    /// Adds the window `w` to the vehicle's availability at time `now`, as adding availability
    /// does, storing a new window under `id`: a window that cannot be booked changes nothing.
    pub fn add_window_at(&mut self, vehicle_id: i32, w: Interval, id: i32, now: i64)
        requires
            1 <= vehicle_id <= old(self).vehicles@.len(),
        ensures
            others_unchanged(old(self).vehicles@, final(self).vehicles@, vehicle_id - 1),
            same_but_availability(old(self).vehicles@[vehicle_id - 1], final(self).vehicles@[vehicle_id - 1]),
            final(self).vehicles@[vehicle_id - 1].availability@ == with_added_window(
                old(self).vehicles@[vehicle_id - 1].availability@,
                w,
                id,
                now,
            ),
            final(self).users == old(self).users,
            final(self).zones == old(self).zones,
            final(self).companies == old(self).companies,
            final(self).addresses == old(self).addresses,
            final(self).next_request_id == old(self).next_request_id,
            old(self).wf() ==> final(self).wf(),
    {
        if !crate::clock::is_valid_at(&w, now) {
            return;
        }
        let plan = self.vehicles[(vehicle_id - 1) as usize].plan_addition(&w);
        self.apply_availability_addition(vehicle_id, &plan, id);
    }

    /// Records a removal the database carried out and adds back, at time `now`, the two parts
    /// of a split window, under the ids `part_ids` the database stored them with.
    pub fn record_removal(&mut self, vehicle_id: i32, plan: &AvailabilityRemoval, now: i64, part_ids: (i32, i32))
        requires
            1 <= vehicle_id <= old(self).vehicles@.len(),
        ensures
            others_unchanged(old(self).vehicles@, final(self).vehicles@, vehicle_id - 1),
            same_but_availability(old(self).vehicles@[vehicle_id - 1], final(self).vehicles@[vehicle_id - 1]),
            final(self).vehicles@[vehicle_id - 1].availability@ == after_removal(
                old(self).vehicles@[vehicle_id - 1].availability@,
                plan.cuts@,
                plan.deletions@,
                plan.split,
                now,
                part_ids,
            ),
            final(self).users == old(self).users,
            final(self).zones == old(self).zones,
            final(self).companies == old(self).companies,
            final(self).addresses == old(self).addresses,
            final(self).next_request_id == old(self).next_request_id,
            old(self).wf() ==> final(self).wf(),
    {
        self.apply_availability_removal(vehicle_id, plan);
        if let Some((left, right)) = plan.split {
            self.add_window_at(vehicle_id, left, part_ids.0, now);
            self.add_window_at(vehicle_id, right, part_ids.1, now);
        }
    }
}


/// Every vehicle keeps its availability windows ordered and apart, under distinct ids.
pub open spec fn fleet_windows_apart(vs: Seq<VehicleData>) -> bool {
    forall|v: int| 0 <= v < vs.len() ==> windows_apart((#[trigger] vs[v]).availability@) && ids_distinct(vs[v].availability@)
}

/// Windows kept apart across calls, adding: when every vehicle's windows lie apart under
/// distinct ids, adding an ordered window under a new id to one vehicle (as `add_window_at`
/// does) keeps them so, and then no vehicle has two availability entries that overlap.
pub proof fn lemma_adding_keeps_fleet_apart(
    before: Seq<VehicleData>,
    after: Seq<VehicleData>,
    k: int,
    w: Interval,
    id: i32,
    now: i64,
)
    requires
        fleet_windows_apart(before),
        0 <= k < before.len(),
        others_unchanged(before, after, k),
        after[k].availability@ == with_added_window(before[k].availability@, w, id, now),
        w.is_ordered(),
        forall|j: int| 0 <= j < before[k].availability@.len() ==> (#[trigger] before[k].availability@[j]).id != id,
    ensures
        fleet_windows_apart(after),
        !some_windows_overlap(after),
{
    assert(windows_apart(before[k].availability@) && ids_distinct(before[k].availability@));
    lemma_added_window_keeps_apart(before[k].availability@, w, id, now);
    assert forall|v: int| 0 <= v < after.len() implies windows_apart((#[trigger] after[v]).availability@) && ids_distinct(
        after[v].availability@,
    ) by {
        if v != k {
            assert(after[v] == before[v]);
        }
    }
    lemma_apart_windows_never_overlap(after);
}

/// Windows kept apart across calls, removing: when every vehicle's windows lie apart under
/// distinct ids, taking a window away from one vehicle as `plan_removal` decides and
/// `record_removal` records (the parts of a split window, which may have no length, under two
/// new ids) keeps them so, and then no vehicle has two availability entries that overlap.
pub proof fn lemma_removal_keeps_fleet_apart(
    before: Seq<VehicleData>,
    after: Seq<VehicleData>,
    k: int,
    r: Interval,
    now: i64,
    part_ids: (i32, i32),
)
    requires
        fleet_windows_apart(before),
        0 <= k < before.len(),
        others_unchanged(before, after, k),
        ({
            let res = removal_scan(before[k].availability@, r, Seq::empty(), Seq::empty(), false);
            &&& after[k].availability@ == after_removal(before[k].availability@, res.0, res.1, res.2, now, part_ids)
            &&& res.2 matches Some(parts) ==> {
                &&& part_ids.0 != part_ids.1
                &&& forall|j: int| 0 <= j < before[k].availability@.len() ==> (#[trigger] before[k].availability@[j]).id != part_ids.0
                    && before[k].availability@[j].id != part_ids.1
            }
        }),
    ensures
        fleet_windows_apart(after),
        !some_windows_overlap(after),
{
    assert(windows_apart(before[k].availability@) && ids_distinct(before[k].availability@));
    lemma_removal_keeps_apart(before[k].availability@, r, now, part_ids);
    assert forall|v: int| 0 <= v < after.len() implies windows_apart((#[trigger] after[v]).availability@) && ids_distinct(
        after[v].availability@,
    ) by {
        if v != k {
            assert(after[v] == before[v]);
        }
    }
    lemma_apart_windows_never_overlap(after);
}

} // verus!
