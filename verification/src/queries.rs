//! Read-only questions about the data: which tours, events and vehicles fall into a time
//! frame, which vehicles are idle, and which tours conflict.

use vstd::prelude::*;
use crate::interval::Interval;
use crate::records::{window, AvailabilityData, CompanyData, EventData, TourData, VehicleData};
use crate::status::Status;
use std::collections::HashMap;
use crate::data::{
    Data, Selector, derefs, refs, filter_refs, events_of, events_of_refs, tours_of, tours_of_refs,
    first_tour_with_id, first_event_with_id, max_or_zero, max_user_key, company_ids, event_ids, tour_ids,
};

verus! {

/// The tour overlaps the window.
pub open spec fn tour_in(iv: Interval) -> spec_fn(TourData) -> bool {
    |t: TourData| iv.overlaps_spec(t.span())
}

/// The event overlaps the window.
pub open spec fn event_in(iv: Interval) -> spec_fn(EventData) -> bool {
    |e: EventData| iv.overlaps_spec(e.span())
}

/// The event overlaps the window and belongs to this customer.
pub open spec fn event_of_customer_in(iv: Interval, customer: i32) -> spec_fn(EventData) -> bool {
    |e: EventData| iv.overlaps_spec(e.span()) && e.customer == customer
}

/// The tour overlaps the window and counts: any tour does when `consider` is set, otherwise
/// every tour but the one with id `tour_id`.
pub open spec fn conflicting(iv: Interval, tour_id: i32, consider: bool) -> spec_fn(TourData) -> bool {
    |t: TourData| (consider || tour_id != t.id) && iv.overlaps_spec(t.span())
}

/// Some tour of the vehicle conflicts.
pub open spec fn has_conflict(v: VehicleData, iv: Interval, tour_id: i32, consider: bool) -> bool {
    exists|j: int| 0 <= j < v.tours@.len() && conflicting(iv, tour_id, consider)(#[trigger] v.tours@[j])
}

/// The vehicle belongs to the company.
pub open spec fn of_company(company_id: i32) -> spec_fn(VehicleData) -> bool {
    |v: VehicleData| v.company == company_id
}

/// The vehicle belongs to the company, if one is named.
pub open spec fn of_company_if_named(company_id: Option<i32>) -> spec_fn(VehicleData) -> bool {
    |v: VehicleData| match company_id {
        None => true,
        Some(c) => v.company == c,
    }
}

/// The vehicle belongs to the company and no tour of it conflicts.
pub open spec fn idle_of_company(company_id: i32, iv: Interval, tour_id: i32, consider: bool) -> spec_fn(VehicleData) -> bool {
    |v: VehicleData| v.company == company_id && !has_conflict(v, iv, tour_id, consider)
}

/// Some availability window of the vehicle holds the window.
pub open spec fn holds_window(v: VehicleData, iv: Interval) -> bool {
    exists|k: int| 0 <= k < v.availability@.len() && (#[trigger] v.availability@[k]).interval.contains_spec(iv)
}

/// The availability window overlaps the window.
pub open spec fn availability_in(iv: Interval) -> spec_fn(AvailabilityData) -> bool {
    |a: AvailabilityData| iv.overlaps_spec(a.interval)
}

/// For every vehicle of the company with a conflicting tour, those tours, stored under the
/// vehicle's id; a later vehicle with the same id takes its place.
pub open spec fn conflict_map(
    vs: Seq<VehicleData>,
    company_id: i32,
    iv: Interval,
    tour_id: i32,
    consider: bool,
) -> Map<i32, Seq<TourData>>
    decreases vs.len(),
{
    if vs.len() == 0 {
        Map::empty()
    } else {
        let before = conflict_map(vs.drop_last(), company_id, iv, tour_id, consider);
        let v = vs.last();
        let found = v.tours@.filter(conflicting(iv, tour_id, consider));
        if v.company == company_id && found.len() > 0 {
            before.insert(v.id, found)
        } else {
            before
        }
    }
}

/// The conflicts, with the references read as the tours they point to.
pub open spec fn conflict_view(r: Map<i32, Vec<&TourData>>) -> Map<i32, Seq<TourData>> {
    r.map_values(|ts: Vec<&TourData>| derefs(ts@))
}

/// A vehicle has conflicting tours exactly when some tour of it conflicts.
proof fn lemma_found_conflicts(v: VehicleData, iv: Interval, tour_id: i32, consider: bool)
    ensures
        (v.tours@.filter(conflicting(iv, tour_id, consider)).len() > 0) == has_conflict(v, iv, tour_id, consider),
{
    let p = conflicting(iv, tour_id, consider);
    let found = v.tours@.filter(p);
    if has_conflict(v, iv, tour_id, consider) {
        let j = choose|j: int| 0 <= j < v.tours@.len() && p(#[trigger] v.tours@[j]);
        v.tours@.lemma_filter_contains(p, j);
    }
    if found.len() > 0 {
        v.tours@.lemma_filter_pred(p, 0);
        assert(found.contains(found[0]));
        v.tours@.lemma_filter_contains_rev(p, found[0]);
        let j = choose|j: int| 0 <= j < v.tours@.len() && v.tours@[j] == found[0];
        assert(p(v.tours@[j]));
    }
}

/// The vehicles listed among a company's conflicts, by id: each listed id is a vehicle's id,
/// and, when no two vehicles share an id, a vehicle of the company is listed exactly when it is
/// not idle. So the idle vehicles of a company are its vehicles that have no conflicts listed.
pub proof fn lemma_idle_exactly_without_conflicts(
    vs: Seq<VehicleData>,
    company_id: i32,
    iv: Interval,
    tour_id: i32,
    consider: bool,
)
    requires
        forall|i: int, j: int| 0 <= i < vs.len() && 0 <= j < vs.len() && vs[i].id == vs[j].id ==> i == j,
    ensures
        forall|id: i32| #[trigger] conflict_map(vs, company_id, iv, tour_id, consider).contains_key(id) ==> exists|j: int|
            0 <= j < vs.len() && vs[j].id == id,
        forall|k: int|
            0 <= k < vs.len() && vs[k].company == company_id ==> (idle_of_company(company_id, iv, tour_id, consider)(
                #[trigger] vs[k],
            ) <==> !conflict_map(vs, company_id, iv, tour_id, consider).contains_key(vs[k].id)),
    decreases vs.len(),
{
    if vs.len() > 0 {
        let prev = vs.drop_last();
        assert forall|i: int, j: int| 0 <= i < prev.len() && 0 <= j < prev.len() && prev[i].id == prev[j].id implies i == j by {
            assert(prev[i] == vs[i] && prev[j] == vs[j]);
        }
        lemma_idle_exactly_without_conflicts(prev, company_id, iv, tour_id, consider);
        let before = conflict_map(prev, company_id, iv, tour_id, consider);
        let all = conflict_map(vs, company_id, iv, tour_id, consider);
        let v = vs.last();
        lemma_found_conflicts(v, iv, tour_id, consider);
        assert(vs[vs.len() - 1] == v);
        assert forall|id: i32| #[trigger] all.contains_key(id) implies exists|j: int| 0 <= j < vs.len() && vs[j].id == id by {
            if before.contains_key(id) {
                let j = choose|j: int| 0 <= j < prev.len() && prev[j].id == id;
                assert(vs[j] == prev[j]);
            } else {
                assert(id == v.id);
            }
        }
        assert forall|k: int| 0 <= k < vs.len() && vs[k].company == company_id implies (idle_of_company(
            company_id,
            iv,
            tour_id,
            consider,
        )(#[trigger] vs[k]) <==> !all.contains_key(vs[k].id)) by {
            if k < vs.len() - 1 {
                assert(vs[k] == prev[k]);
                assert(vs[k].id != v.id);
            } else {
                // no earlier vehicle has the last vehicle's id
                if before.contains_key(v.id) {
                    let j = choose|j: int| 0 <= j < prev.len() && prev[j].id == v.id;
                    assert(prev[j] == vs[j]);
                }
            }
        }
    }
}

/// Whether some tour of the vehicle conflicts.
fn has_conflicting_tour(v: &VehicleData, iv: &Interval, tour_id: i32, consider: bool) -> (r: bool)
    ensures
        r == has_conflict(*v, *iv, tour_id, consider),
{
    let mut j: usize = 0;
    while j < v.tours.len()
        invariant
            j <= v.tours@.len(),
            forall|k: int| 0 <= k < j ==> !conflicting(*iv, tour_id, consider)(#[trigger] v.tours@[k]),
        decreases v.tours@.len() - j,
    {
        if (consider || tour_id != v.tours[j].id) && v.tours[j].overlaps(iv) {
            assert(conflicting(*iv, tour_id, consider)(v.tours@[j as int]));
            return true;
        }
        j += 1;
    }
    false
}

/// The tours among `tours` that conflict.
fn conflicting_tours<'a>(tours: &Vec<&'a TourData>, iv: Interval, tour_id: i32, consider: bool) -> (r: Vec<&'a TourData>)
    ensures
        derefs(r@) == derefs(tours@).filter(conflicting(iv, tour_id, consider)),
{
    filter_refs(tours, &Conflicting { iv, tour_id, consider })
}

/// The first of the tours with this id.
fn first_tour_in<'a>(tours: &'a Vec<TourData>, tour_id: i32) -> (r: Option<&'a TourData>)
    ensures
        match r {
            Some(t) => first_tour_with_id(tours@, tour_id) == Some(*t),
            None => first_tour_with_id(tours@, tour_id) is None,
        },
{
    let ghost ts = tours@;
    let mut i: usize = 0;
    assert(ts.take(0) =~= Seq::<TourData>::empty());
    while i < tours.len()
        invariant
            ts == tours@,
            i <= ts.len(),
            first_tour_with_id(ts.take(i as int), tour_id) is None,
        decreases ts.len() - i,
    {
        assert(ts.take(i + 1).drop_last() =~= ts.take(i as int));
        if tours[i].id == tour_id {
            proof {
                assert(ts.take(i + 1).last() == ts[i as int]);
                crate::data::lemma_first_tour_prefix(ts, tour_id, i + 1);
            }
            return Some(&tours[i]);
        }
        i += 1;
    }
    assert(ts.take(ts.len() as int) =~= ts);
    None
}

struct TourIn {
    iv: Interval,
}

impl Selector<TourData> for TourIn {
    closed spec fn selects(&self) -> spec_fn(TourData) -> bool {
        tour_in(self.iv)
    }

    fn select(&self, t: &TourData) -> (b: bool) {
        t.overlaps(&self.iv)
    }
}

struct Conflicting {
    iv: Interval,
    tour_id: i32,
    consider: bool,
}

impl Selector<TourData> for Conflicting {
    closed spec fn selects(&self) -> spec_fn(TourData) -> bool {
        conflicting(self.iv, self.tour_id, self.consider)
    }

    fn select(&self, t: &TourData) -> (b: bool) {
        (self.consider || self.tour_id != t.id) && t.overlaps(&self.iv)
    }
}

struct EventIn {
    iv: Interval,
}

impl Selector<EventData> for EventIn {
    closed spec fn selects(&self) -> spec_fn(EventData) -> bool {
        event_in(self.iv)
    }

    fn select(&self, e: &EventData) -> (b: bool) {
        e.overlaps(&self.iv)
    }
}

struct EventOfCustomerIn {
    iv: Interval,
    customer: i32,
}

impl Selector<EventData> for EventOfCustomerIn {
    closed spec fn selects(&self) -> spec_fn(EventData) -> bool {
        event_of_customer_in(self.iv, self.customer)
    }

    fn select(&self, e: &EventData) -> (b: bool) {
        e.overlaps(&self.iv) && e.customer == self.customer
    }
}

struct OfCompany {
    company_id: i32,
}

impl Selector<VehicleData> for OfCompany {
    closed spec fn selects(&self) -> spec_fn(VehicleData) -> bool {
        of_company(self.company_id)
    }

    fn select(&self, v: &VehicleData) -> (b: bool) {
        v.company == self.company_id
    }
}

struct OfCompanyIfNamed {
    company_id: Option<i32>,
}

impl Selector<VehicleData> for OfCompanyIfNamed {
    closed spec fn selects(&self) -> spec_fn(VehicleData) -> bool {
        of_company_if_named(self.company_id)
    }

    fn select(&self, v: &VehicleData) -> (b: bool) {
        match self.company_id {
            None => true,
            Some(c) => v.company == c,
        }
    }
}

struct IdleOfCompany {
    company_id: i32,
    iv: Interval,
    tour_id: i32,
    consider: bool,
}

impl Selector<VehicleData> for IdleOfCompany {
    closed spec fn selects(&self) -> spec_fn(VehicleData) -> bool {
        idle_of_company(self.company_id, self.iv, self.tour_id, self.consider)
    }

    fn select(&self, v: &VehicleData) -> (b: bool) {
        v.company == self.company_id && !has_conflicting_tour(v, &self.iv, self.tour_id, self.consider)
    }
}

impl Data {
    /// The tours of the vehicle that overlap the time frame.
    pub fn get_tours(&self, vehicle_id: i32, time_frame_start: i64, time_frame_end: i64) -> (r: Result<Vec<&TourData>, Status>)
        requires
            self.wf(),
            vehicle_id >= 0,
        ensures
            match r {
                Ok(ts) => 1 <= vehicle_id <= self.vehicles@.len() && derefs(ts@) == self.vehicles@[vehicle_id
                    - 1].tours@.filter(tour_in(window(time_frame_start, time_frame_end))),
                Err(e) => e == Status::NotFound && !(1 <= vehicle_id <= self.vehicles@.len()),
            },
    {
        proof {
            self.lemma_max_vehicle_id();
        }
        if self.max_vehicle_id() < vehicle_id || vehicle_id == 0 {
            return Err(Status::NotFound);
        }
        let interval = Interval::new(time_frame_start, time_frame_end);
        let tours = refs(&self.vehicles[(vehicle_id - 1) as usize].tours);
        Ok(filter_refs(&tours, &TourIn { iv: interval }))
    }

    /// The events of the vehicle's tours that overlap the time frame.
    pub fn get_events_for_vehicle(&self, vehicle_id: i32, time_frame_start: i64, time_frame_end: i64) -> (r: Result<
        Vec<&EventData>,
        Status,
    >)
        requires
            self.wf(),
            vehicle_id >= 0,
        ensures
            match r {
                Ok(es) => 1 <= vehicle_id <= self.vehicles@.len() && derefs(es@) == events_of(
                    self.vehicles@[vehicle_id - 1].tours@,
                ).filter(event_in(window(time_frame_start, time_frame_end))),
                Err(e) => e == Status::NotFound && !(1 <= vehicle_id <= self.vehicles@.len()),
            },
    {
        proof {
            self.lemma_max_vehicle_id();
        }
        if self.max_vehicle_id() < vehicle_id || vehicle_id == 0 {
            return Err(Status::NotFound);
        }
        let interval = Interval::new(time_frame_start, time_frame_end);
        let tours = refs(&self.vehicles[(vehicle_id - 1) as usize].tours);
        let events = events_of_refs(&tours);
        Ok(filter_refs(&events, &EventIn { iv: interval }))
    }

    /// The vehicles of the company.
    pub fn get_vehicles(&self, company_id: i32) -> (r: Result<Vec<&VehicleData>, Status>)
        ensures
            match r {
                Ok(vs) => company_id != 0 && company_id <= max_or_zero(company_ids(self.companies@))
                    && derefs(vs@) == self.vehicles@.filter(of_company(company_id)),
                Err(e) => e == Status::NotFound && (company_id == 0 || company_id > max_or_zero(
                    company_ids(self.companies@),
                )),
            },
    {
        if self.max_company_id() < company_id || company_id == 0 {
            return Err(Status::NotFound);
        }
        let vehicles = refs(&self.vehicles);
        Ok(filter_refs(&vehicles, &OfCompany { company_id }))
    }

    /// The events of the user, over all tours, that overlap the time frame.
    pub fn get_events_for_user(&self, user_id: i32, time_frame_start: i64, time_frame_end: i64) -> (r: Result<
        Vec<&EventData>,
        Status,
    >)
        ensures
            match r {
                Ok(es) => user_id != 0 && user_id <= max_user_key(self.users@) && derefs(es@)
                    == self.all_events().filter(event_of_customer_in(window(time_frame_start, time_frame_end), user_id)),
                Err(e) => e == Status::NotFound && (user_id == 0 || user_id > max_user_key(self.users@)),
            },
    {
        if self.max_user_id() < user_id || user_id == 0 {
            return Err(Status::NotFound);
        }
        let interval = Interval::new(time_frame_start, time_frame_end);
        let events = self.event_refs();
        Ok(filter_refs(&events, &EventOfCustomerIn { iv: interval, customer: user_id }))
    }

    /// The vehicles of the company with no tour conflicting with the tour `tour_id`.
    pub fn get_idle_vehicles(&self, company_id: i32, tour_id: i32, consider_provided_tour_conflict: bool) -> (r:
        Result<Vec<&VehicleData>, Status>)
        ensures
            match r {
                Ok(vs) => {
                    &&& company_id != 0 && company_id <= max_or_zero(company_ids(self.companies@))
                    &&& first_tour_with_id(self.all_tours(), tour_id) matches Some(t)
                    &&& derefs(vs@) == self.vehicles@.filter(
                        idle_of_company(company_id, t.span(), tour_id, consider_provided_tour_conflict),
                    )
                },
                Err(e) => e == Status::NotFound && (company_id == 0 || company_id > max_or_zero(
                    company_ids(self.companies@),
                ) || first_tour_with_id(self.all_tours(), tour_id) is None),
            },
    {
        if self.max_company_id() < company_id || company_id == 0 {
            return Err(Status::NotFound);
        }
        let tour_interval = match self.get_tour(tour_id) {
            Ok(t) => Interval::new(t.departure, t.arrival),
            Err(code) => return Err(code),
        };
        let consider = consider_provided_tour_conflict;
        let vehicles = refs(&self.vehicles);
        Ok(filter_refs(&vehicles, &IdleOfCompany { company_id, iv: tour_interval, tour_id, consider }))
    }

    /// Whether no tour of the vehicle conflicts with the tour `tour_id`.
    pub fn is_vehicle_idle(&self, vehicle_id: i32, tour_id: i32, consider_provided_tour_conflict: bool) -> (r: Result<
        bool,
        Status,
    >)
        requires
            self.wf(),
            vehicle_id >= 0 || first_tour_with_id(self.all_tours(), tour_id) is None,
        ensures
            match r {
                Ok(b) => {
                    &&& 1 <= vehicle_id <= self.vehicles@.len()
                    &&& first_tour_with_id(self.all_tours(), tour_id) matches Some(t)
                    &&& b == !has_conflict(
                        self.vehicles@[vehicle_id - 1],
                        t.span(),
                        tour_id,
                        consider_provided_tour_conflict,
                    )
                },
                Err(e) => e == Status::NotFound && (!(1 <= vehicle_id <= self.vehicles@.len()) || first_tour_with_id(
                    self.all_tours(),
                    tour_id,
                ) is None),
            },
    {
        proof {
            self.lemma_max_vehicle_id();
        }
        if self.max_vehicle_id() < vehicle_id || vehicle_id == 0 {
            return Err(Status::NotFound);
        }
        let tour_interval = match self.get_tour(tour_id) {
            Ok(t) => Interval::new(t.departure, t.arrival),
            Err(code) => return Err(code),
        };
        Ok(
            !has_conflicting_tour(
                &self.vehicles[(vehicle_id - 1) as usize],
                &tour_interval,
                tour_id,
                consider_provided_tour_conflict,
            ),
        )
    }

    /// Whether no tour of the vehicle overlaps the time frame.
    pub fn is_vehicle_idle_during(&self, vehicle_id: i32, time_frame_start: i64, time_frame_end: i64) -> (r: Result<
        bool,
        Status,
    >)
        requires
            self.wf(),
            vehicle_id >= 0,
        ensures
            match r {
                Ok(b) => 1 <= vehicle_id <= self.vehicles@.len() && b == !has_conflict(
                    self.vehicles@[vehicle_id - 1],
                    window(time_frame_start, time_frame_end),
                    0,
                    true,
                ),
                Err(e) => e == Status::NotFound && !(1 <= vehicle_id <= self.vehicles@.len()),
            },
    {
        proof {
            self.lemma_max_vehicle_id();
        }
        if self.max_vehicle_id() < vehicle_id || vehicle_id == 0 {
            return Err(Status::NotFound);
        }
        let interval = Interval::new(time_frame_start, time_frame_end);
        Ok(!has_conflicting_tour(&self.vehicles[(vehicle_id - 1) as usize], &interval, 0, true))
    }

    /// For each vehicle of the company, the tours that conflict with the tour `tour_id`;
    /// vehicles without such tours are left out.
    pub fn get_company_conflicts(&self, company_id: i32, tour_id: i32, consider_provided_tour_conflict: bool) -> (r:
        Result<HashMap<i32, Vec<&TourData>>, Status>)
        ensures
            match r {
                Ok(cs) => {
                    &&& company_id != 0 && company_id <= max_or_zero(company_ids(self.companies@))
                    &&& first_tour_with_id(self.all_tours(), tour_id) matches Some(t)
                    &&& conflict_view(cs@) == conflict_map(
                        self.vehicles@,
                        company_id,
                        t.span(),
                        tour_id,
                        consider_provided_tour_conflict,
                    )
                },
                Err(e) => e == Status::NotFound && (company_id == 0 || company_id > max_or_zero(
                    company_ids(self.companies@),
                ) || first_tour_with_id(self.all_tours(), tour_id) is None),
            },
    {
        if self.max_company_id() < company_id || company_id == 0 {
            return Err(Status::NotFound);
        }
        let provided_tour_interval = match self.get_tour(tour_id) {
            Ok(t) => Interval::new(t.departure, t.arrival),
            Err(code) => return Err(code),
        };
        broadcast use vstd::std_specs::hash::group_hash_axioms;

        let consider = consider_provided_tour_conflict;
        let ghost vs = self.vehicles@;
        let mut ret: HashMap<i32, Vec<&TourData>> = HashMap::new();
        let mut i: usize = 0;
        assert(vs.take(0) =~= Seq::<VehicleData>::empty());
        assert(conflict_view(ret@) =~= Map::<i32, Seq<TourData>>::empty());
        while i < self.vehicles.len()
            invariant
                vs == self.vehicles@,
                i <= vs.len(),
                conflict_view(ret@) == conflict_map(vs.take(i as int), company_id, provided_tour_interval, tour_id, consider),
            decreases vs.len() - i,
        {
            let vehicle = &self.vehicles[i];
            assert(vs.take(i + 1).drop_last() =~= vs.take(i as int));
            assert(vs.take(i + 1).last() == vs[i as int]);
            if vehicle.company == company_id {
                let tours = refs(&vehicle.tours);
                let conflicts = conflicting_tours(&tours, provided_tour_interval, tour_id, consider);
                if conflicts.len() > 0 {
                    let ghost before = ret@;
                    let ghost found = derefs(conflicts@);
                    ret.insert(vehicle.id, conflicts);
                    assert(conflict_view(ret@) =~= conflict_view(before).insert(vs[i as int].id, found));
                }
            }
            i += 1;
        }
        assert(vs.take(vs.len() as int) =~= vs);
        Ok(ret)
    }

    /// The tours of the vehicle that conflict with the tour `tour_id`.
    pub fn get_vehicle_conflicts(&self, vehicle_id: i32, tour_id: i32, consider_provided_tour_conflict: bool) -> (r:
        Result<Vec<&TourData>, Status>)
        requires
            self.wf(),
            vehicle_id >= 0 || first_tour_with_id(self.all_tours(), tour_id) is None,
        ensures
            match r {
                Ok(ts) => {
                    &&& 1 <= vehicle_id <= self.vehicles@.len()
                    &&& first_tour_with_id(self.all_tours(), tour_id) matches Some(t)
                    &&& derefs(ts@) == self.vehicles@[vehicle_id - 1].tours@.filter(
                        conflicting(t.span(), tour_id, consider_provided_tour_conflict),
                    )
                },
                Err(e) => e == Status::NotFound && (!(1 <= vehicle_id <= self.vehicles@.len()) || first_tour_with_id(
                    self.all_tours(),
                    tour_id,
                ) is None),
            },
    {
        proof {
            self.lemma_max_vehicle_id();
        }
        if self.max_vehicle_id() < vehicle_id || vehicle_id == 0 {
            return Err(Status::NotFound);
        }
        let tour_interval = match self.get_tour(tour_id) {
            Ok(t) => Interval::new(t.departure, t.arrival),
            Err(code) => return Err(code),
        };
        let tours = refs(&self.vehicles[(vehicle_id - 1) as usize].tours);
        Ok(conflicting_tours(&tours, tour_interval, tour_id, consider_provided_tour_conflict))
    }

    /// The tours, of the named company's vehicles or of all vehicles, that overlap the window
    /// from the event's communicated time to its scheduled time.
    pub fn get_tour_conflicts(&self, event_id: i32, company_id: Option<i32>) -> (r: Result<Vec<&TourData>, Status>)
        ensures
            ({
                let id_bad = event_id == 0 || event_id > max_or_zero(event_ids(self.all_events()));
                let company_bad = company_id matches Some(c) && (c == 0 || c > max_or_zero(
                    company_ids(self.companies@),
                ));
                let event = first_event_with_id(self.all_events(), event_id);
                match r {
                    Ok(ts) => {
                        &&& !id_bad && !company_bad
                        &&& event matches Some(e)
                        &&& derefs(ts@) == tours_of(self.vehicles@.filter(of_company_if_named(company_id))).filter(
                            tour_in(window(e.communicated_time, e.scheduled_time)),
                        )
                    },
                    Err(err) => err == Status::NotFound && (id_bad || company_bad || event is None),
                }
            }),
    {
        if self.max_event_id() < event_id || event_id == 0 {
            return Err(Status::NotFound);
        }
        match company_id {
            None => {},
            Some(id) => {
                if self.max_company_id() < id || id == 0 {
                    return Err(Status::NotFound);
                }
            },
        }
        let event = match self.find_event(event_id) {
            None => return Err(Status::NotFound),
            Some(e) => e,
        };
        let interval = Interval::new(event.communicated_time, event.scheduled_time);
        let vehicles = refs(&self.vehicles);
        let chosen = filter_refs(&vehicles, &OfCompanyIfNamed { company_id });
        let tours = tours_of_refs(&chosen);
        Ok(filter_refs(&tours, &TourIn { iv: interval }))
    }

    /// The events of the tour `tour_id`.
    pub fn get_events_for_tour(&self, tour_id: i32) -> (r: Result<Vec<&EventData>, Status>)
        ensures
            match r {
                Ok(es) => {
                    &&& tour_id != 0 && tour_id <= max_or_zero(tour_ids(self.all_tours()))
                    &&& first_tour_with_id(self.all_tours(), tour_id) matches Some(t)
                    &&& derefs(es@) == t.events@
                },
                Err(e) => e == Status::NotFound && (tour_id == 0 || tour_id > max_or_zero(tour_ids(self.all_tours()))
                    || first_tour_with_id(self.all_tours(), tour_id) is None),
            },
    {
        if self.max_tour_id() < tour_id || tour_id == 0 {
            return Err(Status::NotFound);
        }
        match self.get_tour(tour_id) {
            Err(e) => Err(e),
            Ok(tour) => Ok(refs(&tour.events)),
        }
    }

    /// Whether some availability window of the vehicle holds its tour `tour_id`.
    pub fn is_vehicle_available(&self, vehicle_id: i32, tour_id: i32) -> (r: Result<bool, Status>)
        requires
            self.wf(),
            vehicle_id >= 0,
        ensures
            match r {
                Ok(b) => {
                    &&& 1 <= vehicle_id <= self.vehicles@.len()
                    &&& first_tour_with_id(self.vehicles@[vehicle_id - 1].tours@, tour_id) matches Some(t)
                    &&& b == holds_window(self.vehicles@[vehicle_id - 1], t.span())
                },
                Err(e) => e == Status::NotFound && (!(1 <= vehicle_id <= self.vehicles@.len()) || first_tour_with_id(
                    self.vehicles@[vehicle_id - 1].tours@,
                    tour_id,
                ) is None),
            },
    {
        proof {
            self.lemma_max_vehicle_id();
        }
        if self.max_vehicle_id() < vehicle_id || vehicle_id == 0 {
            return Err(Status::NotFound);
        }
        let vehicle = &self.vehicles[(vehicle_id - 1) as usize];
        let tour = match first_tour_in(&vehicle.tours, tour_id) {
            Some(t) => t,
            None => return Err(Status::NotFound),
        };
        let tour_interval = Interval::new(tour.departure, tour.arrival);
        let mut k: usize = 0;
        while k < vehicle.availability.len()
            invariant
                1 <= vehicle_id <= self.vehicles@.len(),
                *vehicle == self.vehicles@[vehicle_id - 1],
                tour_interval == tour.span(),
                first_tour_with_id(self.vehicles@[vehicle_id - 1].tours@, tour_id) == Some(*tour),
                k <= vehicle.availability@.len(),
                forall|j: int| 0 <= j < k ==> !(#[trigger] vehicle.availability@[j]).interval.contains_spec(tour_interval),
            decreases vehicle.availability@.len() - k,
        {
            if vehicle.availability[k].interval.contains(&tour_interval) {
                assert(*vehicle == self.vehicles@[vehicle_id - 1]);
                assert(tour_interval == tour.span());
                assert(self.vehicles@[vehicle_id - 1].availability@[k as int].interval.contains_spec(tour.span()));
                assert(holds_window(self.vehicles@[vehicle_id - 1], tour.span()));
                return Ok(true);
            }
            k += 1;
        }
        Ok(false)
    }

    /// The position of the first vehicle with this id.
    fn position_of_vehicle(&self, vehicle_id: i32) -> (r: Option<usize>)
        ensures
            match r {
                Some(p) => p < self.vehicles@.len() && self.vehicles@[p as int].id == vehicle_id,
                None => forall|j: int| 0 <= j < self.vehicles@.len() ==> (#[trigger] self.vehicles@[j]).id != vehicle_id,
            },
    {
        let mut p: usize = 0;
        while p < self.vehicles.len()
            invariant
                p <= self.vehicles@.len(),
                forall|j: int| 0 <= j < p ==> (#[trigger] self.vehicles@[j]).id != vehicle_id,
            decreases self.vehicles@.len() - p,
        {
            if self.vehicles[p].id == vehicle_id {
                return Some(p);
            }
            p += 1;
        }
        None
    }

    /// The vehicle's availability windows that overlap the time frame.
    pub fn get_availability_intervals(&self, vehicle_id: i32, time_frame_start: i64, time_frame_end: i64) -> (r:
        Result<Vec<&Interval>, Status>)
        requires
            self.wf(),
        ensures
            match r {
                Ok(ivs) => 1 <= vehicle_id <= self.vehicles@.len() && derefs(ivs@) == self.vehicles@[vehicle_id
                    - 1].availability@.filter(availability_in(window(time_frame_start, time_frame_end))).map_values(
                    |a: AvailabilityData| a.interval,
                ),
                Err(e) => if vehicle_id < 0 {
                    e == Status::InternalServerError
                } else {
                    e == Status::NotFound && !(1 <= vehicle_id <= self.vehicles@.len())
                },
            },
    {
        proof {
            self.lemma_max_vehicle_id();
        }
        if self.max_vehicle_id() < vehicle_id || vehicle_id == 0 {
            return Err(Status::NotFound);
        }
        let p = match self.position_of_vehicle(vehicle_id) {
            Some(p) => p,
            None => {
                assert(vehicle_id < 0) by {
                    if vehicle_id >= 1 {
                        assert(self.vehicles@[vehicle_id - 1].id == vehicle_id);
                    }
                }
                return Err(Status::InternalServerError);
            },
        };
        assert(p == vehicle_id - 1) by {
            assert(self.vehicles@[p as int].id == p + 1);
        }
        let frame = Interval::new(time_frame_start, time_frame_end);
        let v = &self.vehicles[p];
        let ghost s = v.availability@;
        let ghost pred = availability_in(frame);
        let mut r: Vec<&Interval> = Vec::new();
        let mut i: usize = 0;
        assert(s.take(0).filter(pred) =~= Seq::<AvailabilityData>::empty()) by {
            reveal(Seq::filter);
        }
        assert(derefs(r@) =~= s.take(0).filter(pred).map_values(|a: AvailabilityData| a.interval));
        while i < v.availability.len()
            invariant
                s == v.availability@,
                i <= s.len(),
                derefs(r@) == s.take(i as int).filter(pred).map_values(|a: AvailabilityData| a.interval),
                pred == availability_in(frame),
            decreases s.len() - i,
        {
            let a = &v.availability[i];
            assert(s.take(i + 1) =~= s.take(i as int).push(s[i as int]));
            proof {
                s.take(i as int).lemma_filter_push(s[i as int], pred);
            }
            let ghost before = r@;
            if frame.overlaps(&a.interval) {
                r.push(&a.interval);
                assert(derefs(r@) =~= derefs(before).push(a.interval));
                assert(s.take(i + 1).filter(pred).map_values(|a: AvailabilityData| a.interval) =~= s.take(
                    i as int,
                ).filter(pred).map_values(|a: AvailabilityData| a.interval).push(a.interval));
            }
            i += 1;
        }
        assert(s.take(s.len() as int) =~= s);
        Ok(r)
    }

    /// The company with this id, searched among the companies at positions below `company_id`.
    pub fn get_company(&self, company_id: i32) -> (r: Result<&CompanyData, Status>)
        requires
            self.wf(),
            company_id != 0 || self.companies@.len() == 0,
        ensures
            match r {
                Ok(c) => 1 <= company_id < self.companies@.len() && *c == self.companies@[company_id - 1],
                Err(e) => e == Status::NotFound && (company_id < 0 || company_id >= self.companies@.len()),
            },
    {
        if company_id < 0 || self.companies.len() <= company_id as usize {
            return Err(Status::NotFound);
        }
        let mut p: usize = 0;
        while p < self.companies.len()
            invariant
                self.wf(),
                1 <= company_id < self.companies@.len(),
                p <= self.companies@.len(),
                forall|j: int| 0 <= j < p ==> (#[trigger] self.companies@[j]).id != company_id,
            decreases self.companies@.len() - p,
        {
            if self.companies[p].id == company_id {
                return Ok(&self.companies[p]);
            }
            p += 1;
        }
        assert(self.companies@[company_id - 1].id == company_id);
        Err(Status::NotFound)
    }
}

/// What a filter keeps: exactly the items that are there and meet the condition.
pub(crate) proof fn lemma_filter_keeps_exactly<A>(s: Seq<A>, p: spec_fn(A) -> bool)
    ensures
        forall|x: A| #[trigger] s.filter(p).contains(x) <==> s.contains(x) && p(x),
{
    assert forall|x: A| #[trigger] s.filter(p).contains(x) <==> s.contains(x) && p(x) by {
        if s.filter(p).contains(x) {
            s.lemma_filter_contains_rev(p, x);
        }
        if s.contains(x) && p(x) {
            let i = choose|i: int| 0 <= i < s.len() && s[i] == x;
            s.lemma_filter_contains(p, i);
        }
    }
}

/// The events asked for in a time frame (as `get_events_for_vehicle` lists them from the
/// vehicle's tours) are exactly the events of those tours that start before the frame ends and
/// end after it starts: scheduled before its end, communicated after its start.
pub proof fn lemma_events_in_frame(tours: Seq<TourData>, start: i64, end: i64)
    ensures
        forall|e: EventData|
            #[trigger] events_of(tours).filter(event_in(window(start, end))).contains(e) <==> events_of(tours).contains(e)
                && start < e.communicated_time && end > e.scheduled_time,
{
    lemma_filter_keeps_exactly(events_of(tours), event_in(window(start, end)));
}

/// The events of a customer asked for in a time frame (as `get_events_for_user` lists them) are
/// exactly the events of that customer scheduled before the frame ends and communicated after
/// it starts.
pub proof fn lemma_customer_events_in_frame(events: Seq<EventData>, start: i64, end: i64, customer: i32)
    ensures
        forall|e: EventData|
            #[trigger] events.filter(event_of_customer_in(window(start, end), customer)).contains(e) <==> events.contains(e)
                && e.customer == customer && start < e.communicated_time && end > e.scheduled_time,
{
    lemma_filter_keeps_exactly(events, event_of_customer_in(window(start, end), customer));
}

/// The tours asked for in a time frame (as `get_tours` lists them) are exactly the tours that
/// depart before the frame ends and arrive after it starts.
pub proof fn lemma_tours_in_frame(tours: Seq<TourData>, start: i64, end: i64)
    ensures
        forall|t: TourData|
            #[trigger] tours.filter(tour_in(window(start, end))).contains(t) <==> tours.contains(t) && start < t.arrival
                && end > t.departure,
{
    lemma_filter_keeps_exactly(tours, tour_in(window(start, end)));
}

/// The tours that conflict with a window are exactly the tours that depart before it ends and
/// arrive after it starts, the tour `tour_id` among them only when `consider` is set.
pub proof fn lemma_conflicting_tours_exactly(tours: Seq<TourData>, iv: Interval, tour_id: i32, consider: bool)
    ensures
        forall|t: TourData|
            #[trigger] tours.filter(conflicting(iv, tour_id, consider)).contains(t) <==> tours.contains(t) && (consider
                || t.id != tour_id) && iv.start_time < t.arrival && iv.end_time > t.departure,
{
    lemma_filter_keeps_exactly(tours, conflicting(iv, tour_id, consider));
}

/// The availability windows asked for in a time frame (as `get_availability_intervals` lists
/// them) are exactly the windows of the vehicle that start before the frame ends and end after
/// it starts, whether or not they lie wholly inside it.
pub proof fn lemma_windows_in_frame(s: Seq<AvailabilityData>, start: i64, end: i64)
    ensures
        ({
            let listed = s.filter(availability_in(window(start, end))).map_values(|a: AvailabilityData| a.interval);
            &&& forall|x: Interval| #[trigger] listed.contains(x) ==> start < x.end_time && end > x.start_time && exists|k: int|
                0 <= k < s.len() && s[k].interval == x
            &&& forall|k: int|
                0 <= k < s.len() && start < (#[trigger] s[k]).interval.end_time && end > s[k].interval.start_time
                    ==> listed.contains(s[k].interval)
        }),
{
    let p = availability_in(window(start, end));
    let f = s.filter(p);
    let listed = f.map_values(|a: AvailabilityData| a.interval);
    lemma_filter_keeps_exactly(s, p);
    assert forall|x: Interval| #[trigger] listed.contains(x) implies start < x.end_time && end > x.start_time && exists|k: int|
        0 <= k < s.len() && s[k].interval == x by {
        let i = choose|i: int| 0 <= i < listed.len() && listed[i] == x;
        assert(f.contains(f[i]));
        let k = choose|k: int| 0 <= k < s.len() && s[k] == f[i];
    }
    assert forall|k: int| 0 <= k < s.len() && start < (#[trigger] s[k]).interval.end_time && end > s[k].interval.start_time
        implies listed.contains(s[k].interval) by {
        assert(s.contains(s[k]));
        assert(f.contains(s[k]));
        let i = choose|i: int| 0 <= i < f.len() && f[i] == s[k];
        assert(listed[i] == s[k].interval);
    }
}

/// The vehicles of a company (as `get_vehicles` lists them) are exactly the vehicles whose
/// company is that one.
pub proof fn lemma_vehicles_of_company(vs: Seq<VehicleData>, company_id: i32)
    ensures
        forall|v: VehicleData| #[trigger] vs.filter(of_company(company_id)).contains(v) <==> vs.contains(v) && v.company
            == company_id,
{
    lemma_filter_keeps_exactly(vs, of_company(company_id));
}

} // verus!
