//! The whole in-memory state: users, zones, companies, vehicles and addresses.

use vstd::prelude::*;
use crate::status::Status;
use crate::records::{AddressData, CompanyData, EventData, TourData, UserData, VehicleData, ZoneData};
use std::collections::HashMap;

verus! {

#[derive(Clone, Debug)]
pub struct Data {
    /// each user stored under its own id
    pub users: HashMap<i32, UserData>,
    pub zones: Vec<ZoneData>,
    /// the company with id `i` stands at position `i - 1`
    pub companies: Vec<CompanyData>,
    /// the vehicle with id `i` stands at position `i - 1`
    pub vehicles: Vec<VehicleData>,
    pub addresses: Vec<AddressData>,
    pub next_request_id: i32,
}

/// The tours of the given vehicles, vehicle after vehicle.
pub open spec fn tours_of(vs: Seq<VehicleData>) -> Seq<TourData>
    decreases vs.len(),
{
    if vs.len() == 0 {
        Seq::empty()
    } else {
        tours_of(vs.drop_last()) + vs.last().tours@
    }
}

/// The events of the given tours, tour after tour.
pub open spec fn events_of(ts: Seq<TourData>) -> Seq<EventData>
    decreases ts.len(),
{
    if ts.len() == 0 {
        Seq::empty()
    } else {
        events_of(ts.drop_last()) + ts.last().events@
    }
}

/// The largest of the numbers, or 0 when there are none.
pub open spec fn max_or_zero(s: Seq<i32>) -> i32
    decreases s.len(),
{
    if s.len() == 0 {
        0
    } else if s.len() == 1 {
        s[0]
    } else {
        let m = max_or_zero(s.drop_last());
        if s.last() > m { s.last() } else { m }
    }
}

/// The references, read as the values they point to.
pub open spec fn derefs<T>(s: Seq<&T>) -> Seq<T> {
    s.map_values(|x: &T| *x)
}

pub open spec fn vehicle_ids(vs: Seq<VehicleData>) -> Seq<i32> {
    vs.map_values(|v: VehicleData| v.id)
}

pub open spec fn company_ids(cs: Seq<CompanyData>) -> Seq<i32> {
    cs.map_values(|c: CompanyData| c.id)
}

pub open spec fn tour_ids(ts: Seq<TourData>) -> Seq<i32> {
    ts.map_values(|t: TourData| t.id)
}

pub open spec fn event_ids(es: Seq<EventData>) -> Seq<i32> {
    es.map_values(|e: EventData| e.id)
}

/// The largest id a user is stored under, or 0 when there are no users.
pub open spec fn max_user_key(us: Map<i32, UserData>) -> i32 {
    if us.dom().is_empty() {
        0
    } else {
        choose|m: i32| us.contains_key(m) && forall|k: i32| #[trigger] us.contains_key(k) ==> k <= m
    }
}

impl Data {
    /// The shape every operation relies on: vehicles and companies stand at the position their
    /// id names, and every tour names the vehicle that holds it.
    pub open spec fn wf(&self) -> bool {
        &&& forall|i: int| 0 <= i < self.vehicles@.len() ==> #[trigger] self.vehicles@[i].id == i + 1
        &&& forall|i: int| 0 <= i < self.companies@.len() ==> #[trigger] self.companies@[i].id == i + 1
        &&& tours_name_their_vehicle(self.vehicles@)
    }

    /// Every tour, vehicle after vehicle.
    pub open spec fn all_tours(&self) -> Seq<TourData> {
        tours_of(self.vehicles@)
    }

    /// Every event, tour after tour.
    pub open spec fn all_events(&self) -> Seq<EventData> {
        events_of(self.all_tours())
    }

    /// Empty data; the next request gets id 1.
    pub fn new() -> (r: Data)
        ensures
            r.users@ == Map::<i32, UserData>::empty(),
            r.zones@.len() == 0,
            r.companies@.len() == 0,
            r.vehicles@.len() == 0,
            r.addresses@.len() == 0,
            r.next_request_id == 1,
            r.wf(),
    {
        Data {
            users: HashMap::new(),
            zones: Vec::new(),
            companies: Vec::new(),
            vehicles: Vec::new(),
            addresses: Vec::new(),
            next_request_id: 1,
        }
    }

    /// Forgets users, companies, vehicles and zones; the next request gets id 1. Addresses
    /// stay.
    pub fn clear(&mut self)
        ensures
            final(self).users@ == Map::<i32, UserData>::empty(),
            final(self).zones@.len() == 0,
            final(self).companies@.len() == 0,
            final(self).vehicles@.len() == 0,
            final(self).addresses == old(self).addresses,
            final(self).next_request_id == 1,
            final(self).wf(),
    {
        self.users.clear();
        self.companies.clear();
        self.vehicles.clear();
        self.zones.clear();
        self.next_request_id = 1;
    }
}


impl Data {
    /// Whether the data has the shape every operation relies on.
    pub fn is_well_formed(&self) -> (r: bool)
        ensures
            r == self.wf(),
    {
        let mut i: usize = 0;
        while i < self.companies.len()
            invariant
                i <= self.companies@.len(),
                forall|k: int| 0 <= k < i ==> #[trigger] self.companies@[k].id == k + 1,
            decreases self.companies@.len() - i,
        {
            if i >= i32::MAX as usize || self.companies[i].id != i as i32 + 1 {
                assert(self.companies@[i as int].id != i + 1);
                return false;
            }
            i += 1;
        }
        let mut v: usize = 0;
        while v < self.vehicles.len()
            invariant
                forall|k: int| 0 <= k < self.companies@.len() ==> #[trigger] self.companies@[k].id == k + 1,
                v <= self.vehicles@.len(),
                forall|k: int| 0 <= k < v ==> #[trigger] self.vehicles@[k].id == k + 1,
                forall|k: int, j: int| 0 <= k < v && 0 <= j < self.vehicles@[k].tours@.len() ==> #[trigger] self.vehicles@[k].tours@[j].vehicle == k + 1,
            decreases self.vehicles@.len() - v,
        {
            if v >= i32::MAX as usize || self.vehicles[v].id != v as i32 + 1 {
                assert(self.vehicles@[v as int].id != v + 1);
                return false;
            }
            let tours = &self.vehicles[v].tours;
            let mut j: usize = 0;
            while j < tours.len()
                invariant
                    v < self.vehicles@.len(),
                    v < i32::MAX,
                    tours@ == self.vehicles@[v as int].tours@,
                    j <= tours@.len(),
                    forall|t: int| 0 <= t < j ==> #[trigger] tours@[t].vehicle == v + 1,
                decreases tours@.len() - j,
            {
                if tours[j].vehicle != v as i32 + 1 {
                    assert(self.vehicles@[v as int].tours@[j as int].vehicle != v + 1);
                    return false;
                }
                j += 1;
            }
            v += 1;
        }
        true
    }
}

/// Appending one number to a list makes the largest number the larger of the two.
pub proof fn lemma_max_or_zero_push(s: Seq<i32>, x: i32)
    ensures
        max_or_zero(s.push(x)) == if s.len() == 0 { x } else if x > max_or_zero(s) { x } else { max_or_zero(s) },
{
    assert(s.push(x).drop_last() =~= s);
}

/// The number of availability entries over all the given vehicles.
pub open spec fn availability_count(vs: Seq<VehicleData>) -> nat
    decreases vs.len(),
{
    if vs.len() == 0 {
        0
    } else {
        availability_count(vs.drop_last()) + vs.last().availability@.len()
    }
}

/// The first tour with this id, if any.
pub open spec fn first_tour_with_id(ts: Seq<TourData>, id: i32) -> Option<TourData>
    decreases ts.len(),
{
    if ts.len() == 0 {
        None
    } else {
        match first_tour_with_id(ts.drop_last(), id) {
            Some(t) => Some(t),
            None => if ts.last().id == id { Some(ts.last()) } else { None },
        }
    }
}

/// The first event with this id, if any.
pub open spec fn first_event_with_id(es: Seq<EventData>, id: i32) -> Option<EventData>
    decreases es.len(),
{
    if es.len() == 0 {
        None
    } else {
        match first_event_with_id(es.drop_last(), id) {
            Some(e) => Some(e),
            None => if es.last().id == id { Some(es.last()) } else { None },
        }
    }
}

/// Once a prefix holds a tour with the id, every longer prefix finds the same one.
pub proof fn lemma_first_tour_prefix(ts: Seq<TourData>, id: i32, i: int)
    requires
        0 <= i <= ts.len(),
        first_tour_with_id(ts.take(i), id) is Some,
    ensures
        first_tour_with_id(ts, id) == first_tour_with_id(ts.take(i), id),
    decreases ts.len() - i,
{
    if i < ts.len() {
        assert(ts.take(i + 1).drop_last() =~= ts.take(i));
        lemma_first_tour_prefix(ts, id, i + 1);
    } else {
        assert(ts.take(i) =~= ts);
    }
}

/// Once a prefix holds an event with the id, every longer prefix finds the same one.
pub proof fn lemma_first_event_prefix(es: Seq<EventData>, id: i32, i: int)
    requires
        0 <= i <= es.len(),
        first_event_with_id(es.take(i), id) is Some,
    ensures
        first_event_with_id(es, id) == first_event_with_id(es.take(i), id),
    decreases es.len() - i,
{
    if i < es.len() {
        assert(es.take(i + 1).drop_last() =~= es.take(i));
        lemma_first_event_prefix(es, id, i + 1);
    } else {
        assert(es.take(i) =~= es);
    }
}

/// The largest id in the list, or 0 for an empty list.
fn max_id_of(ids: &Vec<i32>) -> (r: i32)
    ensures
        r == max_or_zero(ids@),
{
    let mut m: i32 = 0;
    let mut i: usize = 0;
    assert(ids@.take(0) =~= Seq::<i32>::empty());
    while i < ids.len()
        invariant
            i <= ids@.len(),
            m == max_or_zero(ids@.take(i as int)),
        decreases ids@.len() - i,
    {
        proof {
            lemma_max_or_zero_push(ids@.take(i as int), ids@[i as int]);
            assert(ids@.take(i + 1) =~= ids@.take(i as int).push(ids@[i as int]));
        }
        if i == 0 || ids[i] > m {
            m = ids[i];
        }
        i += 1;
    }
    assert(ids@.take(ids@.len() as int) =~= ids@);
    m
}

impl Data {
    /// References to every tour, vehicle after vehicle.
    pub fn tour_refs(&self) -> (r: Vec<&TourData>)
        ensures
            derefs(r@) == self.all_tours(),
    {
        let vehicles = refs(&self.vehicles);
        tours_of_refs(&vehicles)
    }

    /// References to every event, tour after tour.
    pub fn event_refs(&self) -> (r: Vec<&EventData>)
        ensures
            derefs(r@) == self.all_events(),
    {
        let tours = self.tour_refs();
        events_of_refs(&tours)
    }

    /// The largest event id, or 0 when there are no events.
    pub fn max_event_id(&self) -> (r: i32)
        ensures
            r == max_or_zero(event_ids(self.all_events())),
    {
        let events = self.event_refs();
        let mut ids: Vec<i32> = Vec::new();
        let mut i: usize = 0;
        while i < events.len()
            invariant
                i <= events@.len(),
                ids@ =~= event_ids(derefs(events@).take(i as int)),
            decreases events@.len() - i,
        {
            ids.push(events[i].id);
            i += 1;
        }
        assert(derefs(events@).take(events@.len() as int) =~= derefs(events@));
        max_id_of(&ids)
    }

    /// The largest tour id, or 0 when there are no tours.
    pub fn max_tour_id(&self) -> (r: i32)
        ensures
            r == max_or_zero(tour_ids(self.all_tours())),
    {
        let tours = self.tour_refs();
        let mut ids: Vec<i32> = Vec::new();
        let mut i: usize = 0;
        while i < tours.len()
            invariant
                i <= tours@.len(),
                ids@ =~= tour_ids(derefs(tours@).take(i as int)),
            decreases tours@.len() - i,
        {
            ids.push(tours[i].id);
            i += 1;
        }
        assert(derefs(tours@).take(tours@.len() as int) =~= derefs(tours@));
        max_id_of(&ids)
    }

    /// The largest company id, or 0 when there are no companies.
    pub fn max_company_id(&self) -> (r: i32)
        ensures
            r == max_or_zero(company_ids(self.companies@)),
    {
        let mut ids: Vec<i32> = Vec::new();
        let mut i: usize = 0;
        while i < self.companies.len()
            invariant
                i <= self.companies@.len(),
                ids@ =~= company_ids(self.companies@.take(i as int)),
            decreases self.companies@.len() - i,
        {
            ids.push(self.companies[i].id);
            i += 1;
        }
        assert(self.companies@.take(self.companies@.len() as int) =~= self.companies@);
        max_id_of(&ids)
    }

    /// The largest vehicle id, or 0 when there are no vehicles.
    pub fn max_vehicle_id(&self) -> (r: i32)
        ensures
            r == max_or_zero(vehicle_ids(self.vehicles@)),
    {
        let mut ids: Vec<i32> = Vec::new();
        let mut i: usize = 0;
        while i < self.vehicles.len()
            invariant
                i <= self.vehicles@.len(),
                ids@ =~= vehicle_ids(self.vehicles@.take(i as int)),
            decreases self.vehicles@.len() - i,
        {
            ids.push(self.vehicles[i].id);
            i += 1;
        }
        assert(self.vehicles@.take(self.vehicles@.len() as int) =~= self.vehicles@);
        max_id_of(&ids)
    }

    /// The largest user id, or 0 when there are no users.
    pub fn max_user_id(&self) -> (r: i32)
        ensures
            r == max_user_key(self.users@),
    {
        broadcast use vstd::std_specs::hash::group_hash_axioms;
        broadcast use vstd::seq_lib::group_seq_properties;

        let mut best: Option<i32> = None;
        for k in it: self.users.keys()
            invariant
                it.seq().len() == self.users@.dom().len(),
                it.seq().unref().to_set() == self.users@.dom(),
                forall|x: i32| #[trigger] self.users@.contains_key(x) ==> exists|j: int| 0 <= j < it.seq().len() && *it.seq()[j] == x,
                best is None <==> it.index() == 0,
                best matches Some(b) ==> self.users@.contains_key(b) && forall|j: int| 0 <= j < it.index() ==> *#[trigger] it.seq()[j] <= b,
        {
            proof {
                assert(it.seq().unref()[it.index()] == *k);
                assert(it.seq().unref().contains(*k));
            }
            match best {
                None => {
                    best = Some(*k);
                },
                Some(b) => if *k > b {
                    best = Some(*k);
                },
            }
        }
        match best {
            None => 0,
            Some(b) => {
                proof {
                    let m = choose|m: i32| self.users@.contains_key(m) && forall|k: i32| #[trigger] self.users@.contains_key(k) ==> k <= m;
                    assert(self.users@.contains_key(b));
                    assert(m <= b && b <= m);
                }
                b
            },
        }
    }

    /// The number of tours over all vehicles.
    pub fn get_n_tours(&self) -> (r: usize)
        ensures
            r == self.all_tours().len(),
    {
        self.tour_refs().len()
    }

    /// The number of availability entries over all vehicles.
    pub fn get_n_availabilities(&self) -> (r: usize)
        requires
            availability_count(self.vehicles@) <= usize::MAX,
        ensures
            r == availability_count(self.vehicles@),
    {
        let ghost vs = self.vehicles@;
        let mut n: usize = 0;
        let mut i: usize = 0;
        assert(vs.take(0) =~= Seq::<VehicleData>::empty());
        while i < self.vehicles.len()
            invariant
                vs == self.vehicles@,
                i <= vs.len(),
                n == availability_count(vs.take(i as int)),
                availability_count(vs) <= usize::MAX,
            decreases vs.len() - i,
        {
            assert(vs.take(i + 1).drop_last() =~= vs.take(i as int));
            proof {
                lemma_availability_count_prefix(vs, i + 1);
            }
            n = n + self.vehicles[i].availability.len();
            i += 1;
        }
        assert(vs.take(vs.len() as int) =~= vs);
        n
    }

    /// The first tour with this id, over all vehicles.
    pub fn get_tour(&self, tour_id: i32) -> (r: Result<&TourData, Status>)
        ensures
            match r {
                Ok(t) => first_tour_with_id(self.all_tours(), tour_id) == Some(*t),
                Err(e) => e == Status::NotFound && first_tour_with_id(self.all_tours(), tour_id) is None,
            },
    {
        let tours = self.tour_refs();
        let ghost ts = self.all_tours();
        let mut i: usize = 0;
        assert(ts.take(0) =~= Seq::<TourData>::empty());
        while i < tours.len()
            invariant
                i <= tours@.len(),
                derefs(tours@) == ts,
                ts == self.all_tours(),
                first_tour_with_id(ts.take(i as int), tour_id) is None,
            decreases tours@.len() - i,
        {
            assert(*tours@[i as int] == ts[i as int]);
            assert(ts.take(i + 1).drop_last() =~= ts.take(i as int));
            if tours[i].id == tour_id {
                proof {
                    assert(ts.take(i + 1).last() == ts[i as int]);
                    assert(first_tour_with_id(ts.take(i + 1), tour_id) == Some(ts[i as int]));
                    lemma_first_tour_prefix(ts, tour_id, i + 1);
                }
                let t = tours[i];
                assert(*t == ts[i as int]);
                return Ok(t);
            }
            i += 1;
        }
        assert(ts.take(ts.len() as int) =~= ts);
        Err(Status::NotFound)
    }

    /// The first event with this id, over all tours.
    pub fn find_event(&self, event_id: i32) -> (r: Option<&EventData>)
        ensures
            match r {
                Some(e) => first_event_with_id(self.all_events(), event_id) == Some(*e),
                None => first_event_with_id(self.all_events(), event_id) is None,
            },
    {
        let events = self.event_refs();
        let ghost es = self.all_events();
        let mut i: usize = 0;
        assert(es.take(0) =~= Seq::<EventData>::empty());
        while i < events.len()
            invariant
                i <= events@.len(),
                derefs(events@) == es,
                es == self.all_events(),
                first_event_with_id(es.take(i as int), event_id) is None,
            decreases events@.len() - i,
        {
            assert(*events@[i as int] == es[i as int]);
            assert(es.take(i + 1).drop_last() =~= es.take(i as int));
            if events[i].id == event_id {
                proof {
                    assert(es.take(i + 1).last() == es[i as int]);
                    assert(first_event_with_id(es.take(i + 1), event_id) == Some(es[i as int]));
                    lemma_first_event_prefix(es, event_id, i + 1);
                }
                let e = events[i];
                assert(*e == es[i as int]);
                return Some(e);
            }
            i += 1;
        }
        assert(es.take(es.len() as int) =~= es);
        None
    }

    /// The company at the position its id names.
    pub fn get_company_ref(&self, company_id: i32) -> (r: &CompanyData)
        requires
            1 <= company_id <= self.companies@.len(),
        ensures
            *r == self.companies@[company_id - 1],
    {
        &self.companies[(company_id - 1) as usize]
    }

    /// The event at position `event_id - 1` of the tour at position `tour_id - 1` of the
    /// vehicle at position `vehicle_id - 1`.
    pub fn get_event(&self, vehicle_id: i32, tour_id: i32, event_id: i32) -> (r: &EventData)
        requires
            1 <= vehicle_id <= self.vehicles@.len(),
            1 <= tour_id <= self.vehicles@[vehicle_id - 1].tours@.len(),
            1 <= event_id <= self.vehicles@[vehicle_id - 1].tours@[tour_id - 1].events@.len(),
        ensures
            *r == self.vehicles@[vehicle_id - 1].tours@[tour_id - 1].events@[event_id - 1],
    {
        &self.vehicles[(vehicle_id - 1) as usize].tours[(tour_id - 1) as usize].events[(event_id - 1) as usize]
    }
}


/// References to the items of `v`, in order.
pub fn refs<'a, T>(v: &'a Vec<T>) -> (r: Vec<&'a T>)
    ensures
        derefs(r@) == v@,
{
    let mut r: Vec<&'a T> = Vec::new();
    let mut i: usize = 0;
    while i < v.len()
        invariant
            i <= v@.len(),
            derefs(r@) =~= v@.take(i as int),
        decreases v@.len() - i,
    {
        let ghost before = r@;
        r.push(&v[i]);
        assert(derefs(r@) =~= derefs(before).push(v@[i as int]));
        assert(v@.take(i + 1) =~= v@.take(i as int).push(v@[i as int]));
        i += 1;
    }
    assert(v@.take(v@.len() as int) =~= v@);
    r
}

/// A test on items that exec code can run, with its meaning as a spec predicate.
pub trait Selector<T> {
    spec fn selects(&self) -> spec_fn(T) -> bool;

    fn select(&self, x: &T) -> (b: bool)
        ensures
            b == self.selects()(*x),
    ;
}

/// The items that `sel` selects, in order.
pub fn filter_refs<'a, T, S: Selector<T>>(items: &Vec<&'a T>, sel: &S) -> (r: Vec<&'a T>)
    ensures
        derefs(r@) == derefs(items@).filter(sel.selects()),
{
    let ghost s = derefs(items@);
    let ghost p = sel.selects();
    let mut r: Vec<&'a T> = Vec::new();
    let mut i: usize = 0;
    assert(s.take(0).filter(p) =~= Seq::<T>::empty()) by {
        reveal(Seq::filter);
    }
    while i < items.len()
        invariant
            s == derefs(items@),
            p == sel.selects(),
            i <= s.len(),
            derefs(r@) == s.take(i as int).filter(p),
        decreases s.len() - i,
    {
        let x = items[i];
        assert(*x == s[i as int]);
        assert(s.take(i + 1) =~= s.take(i as int).push(s[i as int]));
        proof {
            s.take(i as int).lemma_filter_push(s[i as int], p);
        }
        let ghost before = r@;
        if sel.select(x) {
            r.push(x);
            assert(derefs(r@) =~= derefs(before).push(*x));
        }
        i += 1;
    }
    assert(s.take(s.len() as int) =~= s);
    r
}

/// References to the tours of the given vehicles, vehicle after vehicle.
pub fn tours_of_refs<'a>(vehicles: &Vec<&'a VehicleData>) -> (r: Vec<&'a TourData>)
    ensures
        derefs(r@) == tours_of(derefs(vehicles@)),
{
    let ghost vs = derefs(vehicles@);
    let mut r: Vec<&'a TourData> = Vec::new();
    let mut i: usize = 0;
    assert(vs.take(0) =~= Seq::<VehicleData>::empty());
    assert(derefs(r@) =~= tours_of(vs.take(0)));
    while i < vehicles.len()
        invariant
            vs == derefs(vehicles@),
            i <= vs.len(),
            derefs(r@) == tours_of(vs.take(i as int)),
        decreases vs.len() - i,
    {
        let v = vehicles[i];
        assert(*v == vs[i as int]);
        let mut j: usize = 0;
        assert(v.tours@.take(0) =~= Seq::<TourData>::empty());
        assert(tours_of(vs.take(i as int)) + v.tours@.take(0) =~= tours_of(vs.take(i as int)));
        while j < v.tours.len()
            invariant
                vs == derefs(vehicles@),
                i < vs.len(),
                *v == vs[i as int],
                j <= v.tours@.len(),
                derefs(r@) == tours_of(vs.take(i as int)) + v.tours@.take(j as int),
            decreases v.tours@.len() - j,
        {
            let ghost before = r@;
            r.push(&v.tours[j]);
            assert(derefs(r@) =~= derefs(before).push(v.tours@[j as int]));
            assert(v.tours@.take(j + 1) =~= v.tours@.take(j as int).push(v.tours@[j as int]));
            assert(tours_of(vs.take(i as int)) + v.tours@.take(j + 1) =~= (tours_of(vs.take(i as int))
                + v.tours@.take(j as int)).push(v.tours@[j as int]));
            j += 1;
        }
        assert(v.tours@.take(j as int) =~= v.tours@);
        assert(vs.take(i + 1).drop_last() =~= vs.take(i as int));
        i += 1;
    }
    assert(vs.take(vs.len() as int) =~= vs);
    r
}

/// References to the events of the given tours, tour after tour.
pub fn events_of_refs<'a>(tours: &Vec<&'a TourData>) -> (r: Vec<&'a EventData>)
    ensures
        derefs(r@) == events_of(derefs(tours@)),
{
    let ghost ts = derefs(tours@);
    let mut r: Vec<&'a EventData> = Vec::new();
    let mut i: usize = 0;
    assert(ts.take(0) =~= Seq::<TourData>::empty());
    assert(derefs(r@) =~= events_of(ts.take(0)));
    while i < tours.len()
        invariant
            ts == derefs(tours@),
            i <= ts.len(),
            derefs(r@) == events_of(ts.take(i as int)),
        decreases ts.len() - i,
    {
        let t = tours[i];
        assert(*t == ts[i as int]);
        let mut j: usize = 0;
        assert(t.events@.take(0) =~= Seq::<EventData>::empty());
        assert(events_of(ts.take(i as int)) + t.events@.take(0) =~= events_of(ts.take(i as int)));
        while j < t.events.len()
            invariant
                ts == derefs(tours@),
                i < ts.len(),
                *t == ts[i as int],
                j <= t.events@.len(),
                derefs(r@) == events_of(ts.take(i as int)) + t.events@.take(j as int),
            decreases t.events@.len() - j,
        {
            let ghost before = r@;
            r.push(&t.events[j]);
            assert(derefs(r@) =~= derefs(before).push(t.events@[j as int]));
            assert(t.events@.take(j + 1) =~= t.events@.take(j as int).push(t.events@[j as int]));
            assert(events_of(ts.take(i as int)) + t.events@.take(j + 1) =~= (events_of(ts.take(i as int))
                + t.events@.take(j as int)).push(t.events@[j as int]));
            j += 1;
        }
        assert(t.events@.take(j as int) =~= t.events@);
        assert(ts.take(i + 1).drop_last() =~= ts.take(i as int));
        i += 1;
    }
    assert(ts.take(ts.len() as int) =~= ts);
    r
}

/// Ids that name their position (the first is 1, the next 2, ...) end with the largest one,
/// the count.
pub proof fn lemma_max_of_positional_ids(s: Seq<i32>)
    requires
        forall|i: int| 0 <= i < s.len() ==> s[i] == i + 1,
    ensures
        max_or_zero(s) == s.len(),
    decreases s.len(),
{
    if s.len() > 1 {
        lemma_max_of_positional_ids(s.drop_last());
    }
}

impl Data {
    /// In well-formed data the largest vehicle id is the number of vehicles.
    pub proof fn lemma_max_vehicle_id(&self)
        requires
            self.wf(),
        ensures
            max_or_zero(vehicle_ids(self.vehicles@)) == self.vehicles@.len(),
    {
        lemma_max_of_positional_ids(vehicle_ids(self.vehicles@));
    }
}


/// The first tour with an id, looked for in two lists one after the other, is the first in
/// the first list, or else the first in the second.
pub proof fn lemma_first_tour_concat(a: Seq<TourData>, b: Seq<TourData>, id: i32)
    ensures
        first_tour_with_id(a + b, id) == match first_tour_with_id(a, id) {
            Some(t) => Some(t),
            None => first_tour_with_id(b, id),
        },
    decreases b.len(),
{
    if b.len() == 0 {
        assert(a + b =~= a);
    } else {
        assert((a + b).drop_last() =~= a + b.drop_last());
        lemma_first_tour_concat(a, b.drop_last(), id);
    }
}

/// The first tour with an id is one of the tours.
pub proof fn lemma_first_tour_member(ts: Seq<TourData>, id: i32)
    requires
        first_tour_with_id(ts, id) is Some,
    ensures
        exists|j: int| 0 <= j < ts.len() && ts[j] == first_tour_with_id(ts, id).unwrap(),
    decreases ts.len(),
{
    if first_tour_with_id(ts.drop_last(), id) is Some {
        lemma_first_tour_member(ts.drop_last(), id);
        let j = choose|j: int| 0 <= j < ts.drop_last().len() && ts.drop_last()[j] == first_tour_with_id(ts.drop_last(), id).unwrap();
        assert(ts[j] == ts.drop_last()[j]);
    } else {
        assert(ts[ts.len() - 1] == ts.last());
    }
}

/// Every tour names the vehicle whose position holds it.
pub open spec fn tours_name_their_vehicle(vs: Seq<VehicleData>) -> bool {
    forall|i: int, j: int| 0 <= i < vs.len() && 0 <= j < vs[i].tours@.len() ==> #[trigger] vs[i].tours@[j].vehicle == i + 1
}

/// When every tour names its vehicle, the first tour with an id over all vehicles names a
/// vehicle that exists, and it is also the first tour with that id of that vehicle.
pub proof fn lemma_first_tour_location(vs: Seq<VehicleData>, id: i32)
    requires
        tours_name_their_vehicle(vs),
        first_tour_with_id(tours_of(vs), id) is Some,
    ensures
        ({
            let t = first_tour_with_id(tours_of(vs), id).unwrap();
            &&& 1 <= t.vehicle <= vs.len()
            &&& first_tour_with_id(vs[t.vehicle - 1].tours@, id) == Some(t)
        }),
    decreases vs.len(),
{
    let prev = vs.drop_last();
    lemma_first_tour_concat(tours_of(prev), vs.last().tours@, id);
    assert(tours_name_their_vehicle(prev)) by {
        assert forall|i: int, j: int| 0 <= i < prev.len() && 0 <= j < prev[i].tours@.len() implies #[trigger] prev[i].tours@[j].vehicle == i + 1 by {
            assert(prev[i] == vs[i]);
        }
    }
    if first_tour_with_id(tours_of(prev), id) is Some {
        lemma_first_tour_location(prev, id);
        let t = first_tour_with_id(tours_of(prev), id).unwrap();
        assert(prev[t.vehicle - 1] == vs[t.vehicle - 1]);
    } else {
        let ts = vs.last().tours@;
        lemma_first_tour_member(ts, id);
        let j = choose|j: int| 0 <= j < ts.len() && ts[j] == first_tour_with_id(ts, id).unwrap();
        assert(vs[vs.len() - 1] == vs.last());
        assert(vs[vs.len() - 1].tours@[j].vehicle == vs.len());
    }
}


/// Vehicles whose tours stayed as they were, followed by new vehicles without tours, still
/// have every tour naming its vehicle.
pub proof fn lemma_tours_name_kept(before: Seq<VehicleData>, after: Seq<VehicleData>)
    requires
        tours_name_their_vehicle(before),
        after.len() >= before.len(),
        forall|i: int| 0 <= i < before.len() ==> (#[trigger] after[i]).tours@ == before[i].tours@,
        forall|i: int| before.len() <= i < after.len() ==> (#[trigger] after[i]).tours@.len() == 0,
    ensures
        tours_name_their_vehicle(after),
{
    assert forall|i: int, j: int| 0 <= i < after.len() && 0 <= j < after[i].tours@.len() implies #[trigger] after[i].tours@[j].vehicle == i + 1 by {
        if i < before.len() {
            assert(after[i].tours@ == before[i].tours@);
            assert(before[i].tours@[j].vehicle == i + 1);
        }
    }
}

/// The count over a prefix of the vehicles never exceeds the count over all of them.
proof fn lemma_availability_count_prefix(vs: Seq<VehicleData>, i: int)
    requires
        0 <= i <= vs.len(),
    ensures
        availability_count(vs.take(i)) <= availability_count(vs),
    decreases vs.len() - i,
{
    if i < vs.len() {
        lemma_availability_count_prefix(vs, i + 1);
        assert(vs.take(i + 1).drop_last() =~= vs.take(i));
    } else {
        assert(vs.take(i) =~= vs);
    }
}

} // verus!

