//! Whether two data sets hold the same content: the same users and availability windows in
//! any order, the same zones, companies, vehicles and tours in the same order, and the same
//! next request id. Addresses are not compared.

use vstd::prelude::*;
use crate::records::{AvailabilityData, CompanyData, TourData, UserData, VehicleData, ZoneData};
use crate::data::Data;
use std::collections::HashMap;

verus! {

/// Both are absent, or both hold the same text.
pub open spec fn same_text(a: Option<String>, b: Option<String>) -> bool {
    match (a, b) {
        (Some(x), Some(y)) => x@ == y@,
        (None, None) => true,
        _ => false,
    }
}

pub open spec fn same_user(a: UserData, b: UserData) -> bool {
    &&& a.id == b.id
    &&& a.name@ == b.name@
    &&& a.is_driver == b.is_driver
    &&& a.is_admin == b.is_admin
    &&& a.email@ == b.email@
    &&& same_text(a.password, b.password)
    &&& a.salt@ == b.salt@
    &&& same_text(a.o_auth_id, b.o_auth_id)
    &&& same_text(a.o_auth_provider, b.o_auth_provider)
}

pub open spec fn same_zone(a: ZoneData, b: ZoneData) -> bool {
    a.id == b.id && a.name@ == b.name@ && a.area@ == b.area@
}

pub open spec fn same_company(a: CompanyData, b: CompanyData) -> bool {
    a.id == b.id && a.zone == b.zone && a.name@ == b.name@ && a.central_coordinates == b.central_coordinates
}

pub open spec fn same_tour(a: TourData, b: TourData) -> bool {
    a.id == b.id && a.departure == b.departure && a.arrival == b.arrival && a.vehicle == b.vehicle && a.events@ == b.events@
}

/// Users are stored under the same ids, and the users under each id are the same.
pub open spec fn same_users(a: Map<i32, UserData>, b: Map<i32, UserData>) -> bool {
    &&& a.dom() == b.dom()
    &&& forall|k: i32| #[trigger] a.contains_key(k) ==> same_user(a[k], b[k])
}

/// Every entry of `a` is in `b`, and the other way round, and there are as many.
pub open spec fn same_windows(a: Seq<AvailabilityData>, b: Seq<AvailabilityData>) -> bool {
    &&& a.len() == b.len()
    &&& forall|i: int| 0 <= i < a.len() ==> b.contains(#[trigger] a[i])
    &&& forall|j: int| 0 <= j < b.len() ==> a.contains(#[trigger] b[j])
}

pub open spec fn same_vehicle(a: VehicleData, b: VehicleData) -> bool {
    &&& a.id == b.id
    &&& a.license_plate@ == b.license_plate@
    &&& a.company == b.company
    &&& a.seats == b.seats
    &&& a.wheelchair_capacity == b.wheelchair_capacity
    &&& a.storage_space == b.storage_space
    &&& same_windows(a.availability@, b.availability@)
    &&& a.tours@.len() == b.tours@.len()
    &&& forall|k: int| 0 <= k < a.tours@.len() ==> #[trigger] same_tour(a.tours@[k], b.tours@[k])
}

impl Data {
    /// The two hold the same content.
    pub open spec fn same_content_spec(self, other: Data) -> bool {
        &&& same_users(self.users@, other.users@)
        &&& self.zones@.len() == other.zones@.len()
        &&& forall|k: int| 0 <= k < self.zones@.len() ==> #[trigger] same_zone(self.zones@[k], other.zones@[k])
        &&& self.companies@.len() == other.companies@.len()
        &&& forall|k: int| 0 <= k < self.companies@.len() ==> #[trigger] same_company(self.companies@[k], other.companies@[k])
        &&& self.vehicles@.len() == other.vehicles@.len()
        &&& forall|k: int| 0 <= k < self.vehicles@.len() ==> #[trigger] same_vehicle(self.vehicles@[k], other.vehicles@[k])
        &&& self.next_request_id == other.next_request_id
    }
}

fn text_eq(a: &Option<String>, b: &Option<String>) -> (r: bool)
    ensures
        r == same_text(*a, *b),
{
    match (a, b) {
        (Some(x), Some(y)) => *x == *y,
        (None, None) => true,
        _ => false,
    }
}

fn user_eq(a: &UserData, b: &UserData) -> (r: bool)
    ensures
        r == same_user(*a, *b),
{
    a.id == b.id && a.name == b.name && a.is_driver == b.is_driver && a.is_admin == b.is_admin && a.email == b.email
        && text_eq(&a.password, &b.password) && a.salt == b.salt && text_eq(&a.o_auth_id, &b.o_auth_id) && text_eq(
        &a.o_auth_provider,
        &b.o_auth_provider,
    )
}

fn users_eq(a: &HashMap<i32, UserData>, b: &HashMap<i32, UserData>) -> (r: bool)
    ensures
        r == same_users(a@, b@),
{
    broadcast use vstd::std_specs::hash::group_hash_axioms;

    for (k, u) in it: a.iter()
        invariant
            forall|x: i32| #[trigger] a@.contains_key(x) ==> exists|j: int| 0 <= j < it.seq().len() && *it.seq()[j].0 == x,
            forall|j: int| 0 <= j < it.seq().len() ==> a@.contains_key(*(#[trigger] it.seq()[j]).0) && a@[*it.seq()[j].0] == *it.seq()[j].1,
            forall|j: int|
                0 <= j < it.index() ==> b@.contains_key(*(#[trigger] it.seq()[j]).0) && same_user(a@[*it.seq()[j].0], b@[*it.seq()[j].0]),
    {
        match b.get(k) {
            Some(w) => if !user_eq(u, w) {
                return false;
            },
            None => {
                return false;
            },
        }
    }
    for k in jt: b.keys()
        invariant
            forall|x: i32| #[trigger] a@.contains_key(x) ==> b@.contains_key(x) && same_user(a@[x], b@[x]),
            jt.seq().unref().to_set() == b@.dom(),
            forall|x: i32| #[trigger] b@.contains_key(x) ==> exists|j: int| 0 <= j < jt.seq().len() && *jt.seq()[j] == x,
            forall|j: int| 0 <= j < jt.index() ==> a@.contains_key(*#[trigger] jt.seq()[j]),
    {
        if !a.contains_key(k) {
            proof {
                assert(jt.seq().unref()[jt.index()] == *k);
                assert(jt.seq().unref().contains(*k));
            }
            return false;
        }
    }
    assert(a@.dom() =~= b@.dom());
    true
}

/// Whether the entry is in the list.
fn has_window(x: AvailabilityData, b: &Vec<AvailabilityData>) -> (r: bool)
    ensures
        r == b@.contains(x),
{
    let mut j: usize = 0;
    while j < b.len()
        invariant
            j <= b@.len(),
            forall|k: int| 0 <= k < j ==> b@[k] != x,
        decreases b@.len() - j,
    {
        if b[j] == x {
            assert(b@[j as int] == x);
            return true;
        }
        j += 1;
    }
    false
}

fn windows_eq(a: &Vec<AvailabilityData>, b: &Vec<AvailabilityData>) -> (r: bool)
    ensures
        r == same_windows(a@, b@),
{
    if a.len() != b.len() {
        return false;
    }
    let mut i: usize = 0;
    while i < a.len()
        invariant
            a@.len() == b@.len(),
            i <= a@.len(),
            forall|k: int| 0 <= k < i ==> b@.contains(#[trigger] a@[k]),
        decreases a@.len() - i,
    {
        if !has_window(a[i], b) {
            return false;
        }
        i += 1;
    }
    let mut j: usize = 0;
    while j < b.len()
        invariant
            a@.len() == b@.len(),
            j <= b@.len(),
            forall|k: int| 0 <= k < a@.len() ==> b@.contains(#[trigger] a@[k]),
            forall|k: int| 0 <= k < j ==> a@.contains(#[trigger] b@[k]),
        decreases b@.len() - j,
    {
        if !has_window(b[j], a) {
            return false;
        }
        j += 1;
    }
    true
}

fn tour_eq(a: &TourData, b: &TourData) -> (r: bool)
    ensures
        r == same_tour(*a, *b),
{
    if !(a.id == b.id && a.departure == b.departure && a.arrival == b.arrival && a.vehicle == b.vehicle) {
        return false;
    }
    if a.events.len() != b.events.len() {
        return false;
    }
    let mut k: usize = 0;
    while k < a.events.len()
        invariant
            a.events@.len() == b.events@.len(),
            k <= a.events@.len(),
            forall|m: int| 0 <= m < k ==> a.events@[m] == b.events@[m],
        decreases a.events@.len() - k,
    {
        if a.events[k] != b.events[k] {
            return false;
        }
        k += 1;
    }
    assert(a.events@ =~= b.events@);
    true
}

fn vehicle_eq(a: &VehicleData, b: &VehicleData) -> (r: bool)
    ensures
        r == same_vehicle(*a, *b),
{
    if !(a.id == b.id && a.license_plate == b.license_plate && a.company == b.company && a.seats == b.seats
        && a.wheelchair_capacity == b.wheelchair_capacity && a.storage_space == b.storage_space) {
        return false;
    }
    if !windows_eq(&a.availability, &b.availability) {
        return false;
    }
    if a.tours.len() != b.tours.len() {
        return false;
    }
    let mut k: usize = 0;
    while k < a.tours.len()
        invariant
            a.tours@.len() == b.tours@.len(),
            k <= a.tours@.len(),
            forall|m: int| 0 <= m < k ==> #[trigger] same_tour(a.tours@[m], b.tours@[m]),
        decreases a.tours@.len() - k,
    {
        if !tour_eq(&a.tours[k], &b.tours[k]) {
            return false;
        }
        k += 1;
    }
    true
}

impl Data {
    /// Whether the two hold the same content.
    pub fn same_content(&self, other: &Data) -> (r: bool)
        ensures
            r == self.same_content_spec(*other),
    {
        if !users_eq(&self.users, &other.users) || self.next_request_id != other.next_request_id {
            return false;
        }
        if self.zones.len() != other.zones.len() || self.companies.len() != other.companies.len()
            || self.vehicles.len() != other.vehicles.len() {
            return false;
        }
        let mut k: usize = 0;
        while k < self.zones.len()
            invariant
                self.zones@.len() == other.zones@.len(),
                k <= self.zones@.len(),
                forall|m: int| 0 <= m < k ==> #[trigger] same_zone(self.zones@[m], other.zones@[m]),
            decreases self.zones@.len() - k,
        {
            let a = &self.zones[k];
            let b = &other.zones[k];
            if !(a.id == b.id && a.name == b.name && a.area == b.area) {
                assert(!same_zone(self.zones@[k as int], other.zones@[k as int]));
                return false;
            }
            k += 1;
        }
        let mut k: usize = 0;
        while k < self.companies.len()
            invariant
                self.companies@.len() == other.companies@.len(),
                k <= self.companies@.len(),
                forall|m: int| 0 <= m < k ==> #[trigger] same_company(self.companies@[m], other.companies@[m]),
            decreases self.companies@.len() - k,
        {
            let a = &self.companies[k];
            let b = &other.companies[k];
            if !(a.id == b.id && a.zone == b.zone && a.name == b.name && a.central_coordinates == b.central_coordinates) {
                assert(!same_company(self.companies@[k as int], other.companies@[k as int]));
                return false;
            }
            k += 1;
        }
        let mut k: usize = 0;
        while k < self.vehicles.len()
            invariant
                self.vehicles@.len() == other.vehicles@.len(),
                k <= self.vehicles@.len(),
                forall|m: int| 0 <= m < k ==> #[trigger] same_vehicle(self.vehicles@[m], other.vehicles@[m]),
            decreases self.vehicles@.len() - k,
        {
            if !vehicle_eq(&self.vehicles[k], &other.vehicles[k]) {
                assert(!same_vehicle(self.vehicles@[k as int], other.vehicles@[k as int]));
                return false;
            }
            k += 1;
        }
        true
    }
}

/// Two data sets hold the same content exactly when their records agree field by field: the
/// same next request id; users under the same ids with the same fields; zones, companies and
/// vehicles in the same order with the same fields; each vehicle with the same windows in any
/// order and the same tours in the same order, each tour with the same id, departure, arrival,
/// vehicle and events. Addresses are not compared.
pub proof fn lemma_same_content_exactly(a: Data, b: Data)
    ensures
        a.same_content_spec(b) <==> {
            &&& a.next_request_id == b.next_request_id
            &&& a.users@.dom() == b.users@.dom()
            &&& forall|k: i32| #[trigger] a.users@.contains_key(k) ==> {
                let (x, y) = (a.users@[k], b.users@[k]);
                &&& x.id == y.id
                &&& x.name@ == y.name@
                &&& x.is_driver == y.is_driver
                &&& x.is_admin == y.is_admin
                &&& x.email@ == y.email@
                &&& (x.password is Some <==> y.password is Some)
                &&& (x.password is Some ==> x.password.unwrap()@ == y.password.unwrap()@)
                &&& x.salt@ == y.salt@
                &&& (x.o_auth_id is Some <==> y.o_auth_id is Some)
                &&& (x.o_auth_id is Some ==> x.o_auth_id.unwrap()@ == y.o_auth_id.unwrap()@)
                &&& (x.o_auth_provider is Some <==> y.o_auth_provider is Some)
                &&& (x.o_auth_provider is Some ==> x.o_auth_provider.unwrap()@ == y.o_auth_provider.unwrap()@)
            }
            &&& a.zones@.len() == b.zones@.len()
            &&& forall|k: int| 0 <= k < a.zones@.len() ==> {
                let (x, y) = (#[trigger] a.zones@[k], b.zones@[k]);
                x.id == y.id && x.name@ == y.name@ && x.area@ == y.area@
            }
            &&& a.companies@.len() == b.companies@.len()
            &&& forall|k: int| 0 <= k < a.companies@.len() ==> {
                let (x, y) = (#[trigger] a.companies@[k], b.companies@[k]);
                x.id == y.id && x.zone == y.zone && x.name@ == y.name@ && x.central_coordinates == y.central_coordinates
            }
            &&& a.vehicles@.len() == b.vehicles@.len()
            &&& forall|k: int| 0 <= k < a.vehicles@.len() ==> {
                let (x, y) = (#[trigger] a.vehicles@[k], b.vehicles@[k]);
                &&& x.id == y.id
                &&& x.license_plate@ == y.license_plate@
                &&& x.company == y.company
                &&& x.seats == y.seats
                &&& x.wheelchair_capacity == y.wheelchair_capacity
                &&& x.storage_space == y.storage_space
                &&& x.availability@.len() == y.availability@.len()
                &&& forall|i: int| 0 <= i < x.availability@.len() ==> y.availability@.contains(#[trigger] x.availability@[i])
                &&& forall|i: int| 0 <= i < y.availability@.len() ==> x.availability@.contains(#[trigger] y.availability@[i])
                &&& x.tours@.len() == y.tours@.len()
                &&& forall|j: int| 0 <= j < x.tours@.len() ==> {
                    let (t, u) = (#[trigger] x.tours@[j], y.tours@[j]);
                    t.id == u.id && t.departure == u.departure && t.arrival == u.arrival && t.vehicle == u.vehicle
                        && t.events@ == u.events@
                }
            }
        },
{
    assert((forall|k: i32| #[trigger] a.users@.contains_key(k) ==> same_user(a.users@[k], b.users@[k])) <==> (forall|k: i32|
        #[trigger] a.users@.contains_key(k) ==> {
        let (x, y) = (a.users@[k], b.users@[k]);
        &&& x.id == y.id
        &&& x.name@ == y.name@
        &&& x.is_driver == y.is_driver
        &&& x.is_admin == y.is_admin
        &&& x.email@ == y.email@
        &&& (x.password is Some <==> y.password is Some)
        &&& (x.password is Some ==> x.password.unwrap()@ == y.password.unwrap()@)
        &&& x.salt@ == y.salt@
        &&& (x.o_auth_id is Some <==> y.o_auth_id is Some)
        &&& (x.o_auth_id is Some ==> x.o_auth_id.unwrap()@ == y.o_auth_id.unwrap()@)
        &&& (x.o_auth_provider is Some <==> y.o_auth_provider is Some)
        &&& (x.o_auth_provider is Some ==> x.o_auth_provider.unwrap()@ == y.o_auth_provider.unwrap()@)
    }));
    assert((forall|k: int| 0 <= k < a.zones@.len() ==> #[trigger] same_zone(a.zones@[k], b.zones@[k])) <==> (forall|k: int|
        0 <= k < a.zones@.len() ==> {
        let (x, y) = (#[trigger] a.zones@[k], b.zones@[k]);
        x.id == y.id && x.name@ == y.name@ && x.area@ == y.area@
    })) by {
        if forall|k: int| 0 <= k < a.zones@.len() ==> #[trigger] same_zone(a.zones@[k], b.zones@[k]) {
            assert forall|k: int| 0 <= k < a.zones@.len() implies {
                let (x, y) = (#[trigger] a.zones@[k], b.zones@[k]);
                x.id == y.id && x.name@ == y.name@ && x.area@ == y.area@
            } by {
                assert(same_zone(a.zones@[k], b.zones@[k]));
            }
        }
    }
    assert((forall|k: int| 0 <= k < a.companies@.len() ==> #[trigger] same_company(a.companies@[k], b.companies@[k])) <==> (
    forall|k: int| 0 <= k < a.companies@.len() ==> {
        let (x, y) = (#[trigger] a.companies@[k], b.companies@[k]);
        x.id == y.id && x.zone == y.zone && x.name@ == y.name@ && x.central_coordinates == y.central_coordinates
    })) by {
        if forall|k: int| 0 <= k < a.companies@.len() ==> #[trigger] same_company(a.companies@[k], b.companies@[k]) {
            assert forall|k: int| 0 <= k < a.companies@.len() implies {
                let (x, y) = (#[trigger] a.companies@[k], b.companies@[k]);
                x.id == y.id && x.zone == y.zone && x.name@ == y.name@ && x.central_coordinates == y.central_coordinates
            } by {
                assert(same_company(a.companies@[k], b.companies@[k]));
            }
        }
    }
    assert forall|x: VehicleData, y: VehicleData| #[trigger] same_vehicle(x, y) <==> {
        &&& x.id == y.id
        &&& x.license_plate@ == y.license_plate@
        &&& x.company == y.company
        &&& x.seats == y.seats
        &&& x.wheelchair_capacity == y.wheelchair_capacity
        &&& x.storage_space == y.storage_space
        &&& x.availability@.len() == y.availability@.len()
        &&& forall|i: int| 0 <= i < x.availability@.len() ==> y.availability@.contains(#[trigger] x.availability@[i])
        &&& forall|i: int| 0 <= i < y.availability@.len() ==> x.availability@.contains(#[trigger] y.availability@[i])
        &&& x.tours@.len() == y.tours@.len()
        &&& forall|j: int| 0 <= j < x.tours@.len() ==> {
            let (t, u) = (#[trigger] x.tours@[j], y.tours@[j]);
            t.id == u.id && t.departure == u.departure && t.arrival == u.arrival && t.vehicle == u.vehicle
                && t.events@ == u.events@
        }
    } by {
        if same_vehicle(x, y) {
            assert forall|j: int| 0 <= j < x.tours@.len() implies {
                let (t, u) = (#[trigger] x.tours@[j], y.tours@[j]);
                t.id == u.id && t.departure == u.departure && t.arrival == u.arrival && t.vehicle == u.vehicle
                    && t.events@ == u.events@
            } by {
                assert(same_tour(x.tours@[j], y.tours@[j]));
            }
        }
    }
    assert((forall|k: int| 0 <= k < a.vehicles@.len() ==> #[trigger] same_vehicle(a.vehicles@[k], b.vehicles@[k])) ==> (
    forall|k: int| 0 <= k < a.vehicles@.len() ==> same_vehicle(#[trigger] a.vehicles@[k], b.vehicles@[k])));
    assert((forall|k: int| 0 <= k < a.vehicles@.len() ==> same_vehicle(#[trigger] a.vehicles@[k], b.vehicles@[k])) ==> (
    forall|k: int| 0 <= k < a.vehicles@.len() ==> #[trigger] same_vehicle(a.vehicles@[k], b.vehicles@[k]))) by {
        if forall|k: int| 0 <= k < a.vehicles@.len() ==> same_vehicle(#[trigger] a.vehicles@[k], b.vehicles@[k]) {
            assert forall|k: int| 0 <= k < a.vehicles@.len() implies #[trigger] same_vehicle(a.vehicles@[k], b.vehicles@[k]) by {
                assert(same_vehicle(a.vehicles@[k], b.vehicles@[k]));
            }
        }
    }
}

} // verus!
