//! The records the data layer keeps in memory: tours with their events, users, vehicles,
//! companies, addresses and zones.

use vstd::prelude::*;
use crate::interval::Interval;

verus! {

/// The IEEE-754 bit patterns of a point's two coordinates. The data layer only stores and
/// hands them back; it never computes with them.
#[derive(Clone, Copy, Debug, PartialEq, Eq, Structural)]
pub struct Coordinates {
    pub x_bits: u64,
    pub y_bits: u64,
}

/// A window in which a vehicle can be booked.
#[derive(Clone, Copy, Debug, PartialEq, Eq, Structural)]
pub struct AvailabilityData {
    pub id: i32,
    pub interval: Interval,
}

/// A pickup or a drop-off of one request.
#[derive(Clone, Copy, Debug, PartialEq, Eq, Structural)]
pub struct EventData {
    pub id: i32,
    pub coordinates: Coordinates,
    pub scheduled_time: i64,
    pub communicated_time: i64,
    pub customer: i32,
    pub tour: i32,
    pub passengers: i32,
    pub wheelchairs: i32,
    pub luggage: i32,
    pub request_id: i32,
    pub is_pickup: bool,
    pub address_id: i32,
}

/// One trip of a vehicle, from leaving the company's central to coming back.
#[derive(Clone, Debug)]
pub struct TourData {
    pub id: i32,
    /// departure from the company's central
    pub departure: i64,
    /// arrival back at the company's central
    pub arrival: i64,
    pub vehicle: i32,
    pub events: Vec<EventData>,
}

#[derive(Clone, Debug)]
pub struct UserData {
    pub id: i32,
    pub name: String,
    pub is_driver: bool,
    pub is_admin: bool,
    pub email: String,
    pub password: Option<String>,
    pub salt: String,
    pub o_auth_id: Option<String>,
    pub o_auth_provider: Option<String>,
}

#[derive(Clone, Debug)]
pub struct VehicleData {
    pub id: i32,
    pub license_plate: String,
    pub company: i32,
    pub seats: i32,
    pub wheelchair_capacity: i32,
    pub storage_space: i32,
    /// keyed by the availability's id: no id occurs twice
    pub availability: Vec<AvailabilityData>,
    pub tours: Vec<TourData>,
}

#[derive(Clone, Debug)]
pub struct CompanyData {
    pub id: i32,
    pub central_coordinates: Coordinates,
    pub zone: i32,
    pub name: String,
}

#[derive(Clone, Debug)]
pub struct AddressData {
    pub id: i32,
    pub zip_code: String,
    pub city: String,
    pub street: String,
    pub house_nr: String,
}

/// A zone, with the text its area was read from.
#[derive(Clone, Debug)]
pub struct ZoneData {
    pub area: String,
    pub name: String,
    pub id: i32,
}

/// The window from `start` to `end`.
pub open spec fn window(start: i64, end: i64) -> Interval {
    Interval { start_time: start, end_time: end }
}

/// `k` is the first position holding the earliest scheduled time.
pub open spec fn is_first_earliest(events: Seq<EventData>, k: int) -> bool {
    &&& 0 <= k < events.len()
    &&& forall|j: int| 0 <= j < events.len() ==> events[k].scheduled_time <= events[j].scheduled_time
    &&& forall|j: int| 0 <= j < k ==> events[j].scheduled_time > events[k].scheduled_time
}

/// `k` is the last position holding the latest scheduled time.
pub open spec fn is_last_latest(events: Seq<EventData>, k: int) -> bool {
    &&& 0 <= k < events.len()
    &&& forall|j: int| 0 <= j < events.len() ==> events[j].scheduled_time <= events[k].scheduled_time
    &&& forall|j: int| k < j < events.len() ==> events[j].scheduled_time < events[k].scheduled_time
}

/// The first event with the earliest scheduled time, for a non-empty list.
pub open spec fn earliest_event(es: Seq<EventData>) -> EventData
    decreases es.len(),
{
    if es.len() <= 1 {
        es[0]
    } else {
        let m = earliest_event(es.drop_last());
        if es.last().scheduled_time < m.scheduled_time { es.last() } else { m }
    }
}

/// The last event with the latest scheduled time, for a non-empty list.
pub open spec fn latest_event(es: Seq<EventData>) -> EventData
    decreases es.len(),
{
    if es.len() <= 1 {
        es[0]
    } else {
        let m = latest_event(es.drop_last());
        if es.last().scheduled_time >= m.scheduled_time { es.last() } else { m }
    }
}

impl TourData {
    /// The window from departure to arrival.
    pub open spec fn span(self) -> Interval {
        window(self.departure, self.arrival)
    }

    pub fn overlaps(&self, interval: &Interval) -> (r: bool)
        ensures
            r == interval.overlaps_spec(self.span()),
    {
        interval.overlaps(&Interval::new(self.departure, self.arrival))
    }

    /// Whether any event of the tour falls into `interval`; for now judged by the whole tour.
    pub fn any_tour_event_overlaps(&self, interval: &Interval) -> (r: bool)
        ensures
            r == interval.overlaps_spec(self.span()),
    {
        interval.overlaps(&Interval::new(self.departure, self.arrival))
    }

    /// The first event with the earliest scheduled time.
    pub fn get_first_event(&self) -> (r: Option<&EventData>)
        ensures
            r is None <==> self.events@.len() == 0,
            r matches Some(e) ==> exists|k: int| is_first_earliest(self.events@, k) && *e == self.events@[k],
            r matches Some(e) ==> *e == earliest_event(self.events@),
    {
        if self.events.len() == 0 {
            return None;
        }
        let mut best: usize = 0;
        let mut i: usize = 1;
        assert(self.events@.take(1)[0] == self.events@[0]);
        while i < self.events.len()
            invariant
                0 <= best < i <= self.events@.len(),
                forall|j: int| 0 <= j < i ==> self.events@[best as int].scheduled_time <= self.events@[j].scheduled_time,
                forall|j: int| 0 <= j < best ==> self.events@[j].scheduled_time > self.events@[best as int].scheduled_time,
                self.events@[best as int] == earliest_event(self.events@.take(i as int)),
            decreases self.events@.len() - i,
        {
            assert(self.events@.take(i + 1).drop_last() =~= self.events@.take(i as int));
            if self.events[i].scheduled_time < self.events[best].scheduled_time {
                best = i;
            }
            i += 1;
        }
        assert(self.events@.take(i as int) =~= self.events@);
        Some(&self.events[best])
    }

    /// The last event with the latest scheduled time.
    pub fn get_last_event(&self) -> (r: Option<&EventData>)
        ensures
            r is None <==> self.events@.len() == 0,
            r matches Some(e) ==> exists|k: int| is_last_latest(self.events@, k) && *e == self.events@[k],
            r matches Some(e) ==> *e == latest_event(self.events@),
    {
        if self.events.len() == 0 {
            return None;
        }
        let mut best: usize = 0;
        let mut i: usize = 1;
        assert(self.events@.take(1)[0] == self.events@[0]);
        while i < self.events.len()
            invariant
                0 <= best < i <= self.events@.len(),
                forall|j: int| 0 <= j < i ==> self.events@[j].scheduled_time <= self.events@[best as int].scheduled_time,
                forall|j: int| best < j < i ==> self.events@[j].scheduled_time < self.events@[best as int].scheduled_time,
                self.events@[best as int] == latest_event(self.events@.take(i as int)),
            decreases self.events@.len() - i,
        {
            assert(self.events@.take(i + 1).drop_last() =~= self.events@.take(i as int));
            if self.events[i].scheduled_time >= self.events[best].scheduled_time {
                best = i;
            }
            i += 1;
        }
        assert(self.events@.take(i as int) =~= self.events@);
        Some(&self.events[best])
    }
}

impl EventData {
    /// The window from the scheduled to the communicated time, in that order.
    pub open spec fn span(self) -> Interval {
        window(self.scheduled_time, self.communicated_time)
    }

    pub fn overlaps(&self, interval: &Interval) -> (r: bool)
        ensures
            r == interval.overlaps_spec(self.span()),
    {
        interval.overlaps(&Interval::new(self.scheduled_time, self.communicated_time))
    }
}

impl VehicleData {
    /// Whether the vehicle can take the load; for now only the number of passengers counts.
    pub fn fulfills_requirements(&self, passengers: i32, wheelchairs: i32, luggage: i32) -> (r: bool)
        ensures
            r == (passengers < 4),
    {
        passengers < 4
    }

    /// A placeholder vehicle: every number is -1, no plate, no availability, no tours.
    pub fn new() -> (r: VehicleData)
        ensures
            r.id == -1,
            r.license_plate@ == Seq::<char>::empty(),
            r.company == -1,
            r.seats == -1,
            r.wheelchair_capacity == -1,
            r.storage_space == -1,
            r.availability@ == Seq::<AvailabilityData>::empty(),
            r.tours@.len() == 0,
    {
        VehicleData {
            id: -1,
            license_plate: String::new(),
            company: -1,
            seats: -1,
            wheelchair_capacity: -1,
            storage_space: -1,
            availability: Vec::new(),
            tours: Vec::new(),
        }
    }
}

impl CompanyData {
    /// A placeholder company: id and zone -1, no name, coordinates (0.0, 0.0).
    pub fn new() -> (r: CompanyData)
        ensures
            r.id == -1,
            r.zone == -1,
            r.name@ == Seq::<char>::empty(),
            r.central_coordinates == (Coordinates { x_bits: 0, y_bits: 0 }),
    {
        CompanyData {
            id: -1,
            central_coordinates: Coordinates { x_bits: 0, y_bits: 0 },
            zone: -1,
            name: String::new(),
        }
    }
}

} // verus!
