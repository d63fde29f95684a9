//! Filling the data with what the database holds.

use vstd::prelude::*;
use vstd::multiset::Multiset;
use crate::records::{CompanyData, Coordinates, EventData, TourData, UserData, VehicleData, ZoneData};
use crate::data::{Data, first_tour_with_id, lemma_first_tour_location, tours_name_their_vehicle, lemma_tours_name_kept};
use crate::changes::{others_unchanged, same_but_tours, is_first_tour_index};

verus! {

/// A zone as read, with whether its area text could be understood.
pub struct LoadedZone {
    pub zone: ZoneData,
    pub area_is_valid: bool,
}

/// A vehicle as read.
pub struct VehicleRecord {
    pub id: i32,
    pub license_plate: String,
    pub company: i32,
    pub seats: i32,
    pub wheelchair_capacity: i32,
    pub storage_space: i32,
}

/// The zones whose area could be understood, in the order given.
pub open spec fn valid_zones(s: Seq<LoadedZone>) -> Seq<ZoneData>
    decreases s.len(),
{
    if s.len() == 0 {
        Seq::empty()
    } else if s.last().area_is_valid {
        valid_zones(s.drop_last()).push(s.last().zone)
    } else {
        valid_zones(s.drop_last())
    }
}

/// The position of the first zone whose id is not below `id`, or the length when there is
/// none.
pub open spec fn first_not_below(s: Seq<ZoneData>, id: i32) -> int
    decreases s.len(),
{
    if s.len() == 0 {
        0
    } else if s[0].id >= id {
        0
    } else {
        1 + first_not_below(s.drop_first(), id)
    }
}

/// The zones whose area could be understood, ordered by id, keeping the order they were read
/// in among equal ids: each goes before the first zone read after it whose id is not below
/// its own.
pub open spec fn sorted_valid_zones(s: Seq<LoadedZone>) -> Seq<ZoneData>
    decreases s.len(),
{
    if s.len() == 0 {
        Seq::empty()
    } else {
        let rest = sorted_valid_zones(s.drop_first());
        if s[0].area_is_valid {
            rest.insert(first_not_below(rest, s[0].zone.id), s[0].zone)
        } else {
            rest
        }
    }
}

/// A position before which every id is below `id`, and at which the id is not, is the first
/// such position.
proof fn lemma_first_not_below(s: Seq<ZoneData>, id: i32, p: int)
    requires
        0 <= p <= s.len(),
        forall|k: int| 0 <= k < p ==> (#[trigger] s[k]).id < id,
        p == s.len() || s[p].id >= id,
    ensures
        first_not_below(s, id) == p,
    decreases p,
{
    if p > 0 {
        let t = s.drop_first();
        assert forall|k: int| 0 <= k < p - 1 implies (#[trigger] t[k]).id < id by {
            assert(t[k] == s[k + 1]);
        }
        if p < s.len() {
            assert(t[p - 1] == s[p]);
        }
        lemma_first_not_below(t, id, p - 1);
        assert(s[0].id < id);
    }
}

/// The zones are ordered by id.
pub open spec fn sorted_by_id(s: Seq<ZoneData>) -> bool {
    forall|i: int, j: int| 0 <= i <= j < s.len() ==> (#[trigger] s[i]).id <= (#[trigger] s[j]).id
}

/// The last of the companies with this id.
pub open spec fn last_company_with_id(s: Seq<CompanyData>, id: i32) -> Option<CompanyData>
    decreases s.len(),
{
    if s.len() == 0 {
        None
    } else if s.last().id == id {
        Some(s.last())
    } else {
        last_company_with_id(s.drop_last(), id)
    }
}

/// The last of the vehicle records with this id.
pub open spec fn last_vehicle_with_id(s: Seq<VehicleRecord>, id: i32) -> Option<VehicleRecord>
    decreases s.len(),
{
    if s.len() == 0 {
        None
    } else if s.last().id == id {
        Some(s.last())
    } else {
        last_vehicle_with_id(s.drop_last(), id)
    }
}

/// The company is the placeholder: id and zone -1, no name, coordinates (0.0, 0.0).
pub open spec fn is_placeholder_company(c: CompanyData) -> bool {
    c.id == -1 && c.zone == -1 && c.name@ == Seq::<char>::empty() && c.central_coordinates == (Coordinates {
        x_bits: 0,
        y_bits: 0,
    })
}

/// The vehicle is the placeholder: every number -1, no plate, no availability, no tours.
pub open spec fn is_placeholder_vehicle(v: VehicleData) -> bool {
    &&& v.id == -1
    &&& v.license_plate@ == Seq::<char>::empty()
    &&& v.company == -1
    &&& v.seats == -1
    &&& v.wheelchair_capacity == -1
    &&& v.storage_space == -1
    &&& v.availability@.len() == 0
    &&& v.tours@.len() == 0
}

/// The vehicle holds what the record says, with no availability and no tours.
pub open spec fn vehicle_from_record(v: VehicleData, r: VehicleRecord) -> bool {
    &&& v.id == r.id
    &&& v.license_plate@ == r.license_plate@
    &&& v.company == r.company
    &&& v.seats == r.seats
    &&& v.wheelchair_capacity == r.wheelchair_capacity
    &&& v.storage_space == r.storage_space
    &&& v.availability@.len() == 0
    &&& v.tours@.len() == 0
}

impl CompanyData {
    /// An equal copy.
    pub fn copied(&self) -> (r: CompanyData)
        ensures
            r == *self,
    {
        CompanyData {
            id: self.id,
            central_coordinates: self.central_coordinates,
            zone: self.zone,
            name: self.name.clone(),
        }
    }
}

impl Data {
    /// Appends the zones whose area could be understood, ordered by id.
    pub fn load_zones(&mut self, zones: Vec<LoadedZone>)
        ensures
            final(self).zones@.len() >= old(self).zones@.len(),
            final(self).zones@.take(old(self).zones@.len() as int) == old(self).zones@,
            final(self).zones@ == old(self).zones@ + sorted_valid_zones(zones@),
            sorted_by_id(final(self).zones@.skip(old(self).zones@.len() as int)),
            final(self).zones@.skip(old(self).zones@.len() as int).to_multiset() == valid_zones(zones@).to_multiset(),
            final(self).users == old(self).users,
            final(self).vehicles == old(self).vehicles,
            final(self).companies == old(self).companies,
            final(self).addresses == old(self).addresses,
            final(self).next_request_id == old(self).next_request_id,
            old(self).wf() ==> final(self).wf(),
    {
        broadcast use vstd::multiset::group_multiset_axioms;

        let ghost all = zones@;
        let mut rest = zones;
        let mut sorted: Vec<ZoneData> = Vec::new();
        proof {
            vstd::seq_lib::to_multiset_len(sorted@);
            vstd::multiset::lemma_multiset_empty_len(sorted@.to_multiset());
        }
        assert(sorted@.to_multiset() =~= Multiset::<ZoneData>::empty());
        assert(all.take(all.len() as int) =~= all);
        assert(all.skip(all.len() as int) =~= Seq::<LoadedZone>::empty());
        while rest.len() > 0
            invariant
                rest@ == all.take(rest@.len() as int),
                rest@.len() <= all.len(),
                sorted@ == sorted_valid_zones(all.skip(rest@.len() as int)),
                sorted_by_id(sorted@),
                valid_zones(rest@).to_multiset().add(sorted@.to_multiset()) == valid_zones(all).to_multiset(),
            decreases rest@.len(),
        {
            let ghost before_rest = rest@;
            let ghost before_sorted = sorted@;
            let lz = rest.pop().unwrap();
            assert(rest@ == before_rest.drop_last());
            assert(rest@ =~= all.take(rest@.len() as int));
            let ghost jn = rest@.len() as int;
            assert(lz == all[jn]);
            assert(all.skip(jn)[0] == all[jn]);
            assert(all.skip(jn).drop_first() =~= all.skip(jn + 1));
            if lz.area_is_valid {
                let z = lz.zone;
                let mut p: usize = 0;
                while p < sorted.len() && sorted[p].id < z.id
                    invariant
                        sorted@ == before_sorted,
                        p <= sorted@.len(),
                        forall|j: int| 0 <= j < p ==> (#[trigger] sorted@[j]).id < z.id,
                    decreases sorted@.len() - p,
                {
                    p += 1;
                }
                let ghost zz = z;
                proof {
                    lemma_first_not_below(before_sorted, zz.id, p as int);
                }
                sorted.insert(p, z);
                assert(sorted_by_id(sorted@)) by {
                    assert forall|i: int, j: int| 0 <= i <= j < sorted@.len() implies (#[trigger] sorted@[i]).id <= (
                    #[trigger] sorted@[j]).id by {
                        if i < p as int && j < p as int {
                            assert(sorted@[i] == before_sorted[i]);
                            assert(sorted@[j] == before_sorted[j]);
                        } else if i < p as int && j == p as int {
                            assert(sorted@[i] == before_sorted[i]);
                        } else if i < p as int {
                            assert(sorted@[i] == before_sorted[i]);
                            assert(sorted@[j] == before_sorted[j - 1]);
                            assert(before_sorted[i].id <= before_sorted[j - 1].id);
                        } else if i == p as int && j > p as int {
                            assert(sorted@[j] == before_sorted[j - 1]);
                            if p < before_sorted.len() {
                                assert(before_sorted[p as int].id >= zz.id);
                                assert(before_sorted[p as int].id <= before_sorted[j - 1].id);
                            }
                        } else if i > p as int {
                            assert(sorted@[i] == before_sorted[i - 1]);
                            assert(sorted@[j] == before_sorted[j - 1]);
                        }
                    }
                }
                assert(valid_zones(before_rest) == valid_zones(rest@).push(zz));
                proof {
                    vstd::seq_lib::to_multiset_build(valid_zones(rest@), zz);
                    vstd::seq_lib::to_multiset_insert(before_sorted, p as int, zz);
                }
                assert(valid_zones(before_rest).to_multiset() == valid_zones(rest@).to_multiset().insert(zz));
                assert(sorted@ == before_sorted.insert(p as int, zz));
                assert(sorted@.to_multiset() == before_sorted.to_multiset().insert(zz));
                assert(valid_zones(rest@).to_multiset().add(sorted@.to_multiset()) =~= valid_zones(
                    before_rest,
                ).to_multiset().add(before_sorted.to_multiset()));
            } else {
                assert(valid_zones(before_rest) == valid_zones(rest@));
            }
        }
        assert(rest@.len() == 0);
        assert(valid_zones(rest@) =~= Seq::<ZoneData>::empty());
        assert(sorted@.to_multiset() =~= valid_zones(all).to_multiset());
        let ghost before_zones = self.zones@;
        let ghost fin = sorted@;
        self.zones.append(&mut sorted);
        assert(self.zones@.take(before_zones.len() as int) =~= before_zones);
        assert(self.zones@.skip(before_zones.len() as int) =~= fin);
    }
}

impl Data {
    /// Puts every company at the position its id names (the later of two with the same id
    /// wins), after the companies are cut or padded with placeholders to as many as were
    /// read.
    pub fn load_companies(&mut self, companies: Vec<CompanyData>)
        requires
            companies@.len() <= i32::MAX,
            forall|k: int| 0 <= k < companies@.len() ==> 1 <= (#[trigger] companies@[k]).id <= companies@.len(),
        ensures
            final(self).companies@.len() == companies@.len(),
            forall|i: int|
                0 <= i < companies@.len() ==> match last_company_with_id(companies@, (i + 1) as i32) {
                    Some(c) => #[trigger] final(self).companies@[i] == c,
                    None => if i < old(self).companies@.len() {
                        final(self).companies@[i] == old(self).companies@[i]
                    } else {
                        is_placeholder_company(final(self).companies@[i])
                    },
                },
            final(self).users == old(self).users,
            final(self).zones == old(self).zones,
            final(self).vehicles == old(self).vehicles,
            final(self).addresses == old(self).addresses,
            final(self).next_request_id == old(self).next_request_id,
            old(self).wf() && (forall|i: int|
                0 <= i < companies@.len() ==> #[trigger] last_company_with_id(companies@, (i + 1) as i32) is Some)
                ==> final(self).wf(),
    {
        let n = companies.len();
        if self.companies.len() > n {
            self.companies.truncate(n);
        }
        let ghost kept = self.companies@;
        while self.companies.len() < n
            invariant
                self.companies@.len() <= n,
                kept.len() <= n,
                kept.len() <= self.companies@.len(),
                kept == old(self).companies@.take(kept.len() as int),
                forall|i: int| 0 <= i < kept.len() ==> #[trigger] self.companies@[i] == kept[i],
                forall|i: int| kept.len() <= i < self.companies@.len() ==> is_placeholder_company(#[trigger] self.companies@[i]),
                self.users == old(self).users,
                self.zones == old(self).zones,
                self.vehicles == old(self).vehicles,
                self.addresses == old(self).addresses,
                self.next_request_id == old(self).next_request_id,
            decreases n - self.companies@.len(),
        {
            self.companies.push(CompanyData::new());
        }
        let ghost base = self.companies@;
        let mut j: usize = 0;
        assert(companies@.take(0) =~= Seq::<CompanyData>::empty());
        while j < n
            invariant
                n == companies@.len(),
                n <= i32::MAX,
                j <= n,
                self.companies@.len() == n,
                base.len() == n,
                forall|k: int| 0 <= k < companies@.len() ==> 1 <= (#[trigger] companies@[k]).id <= companies@.len(),
                forall|i: int|
                    0 <= i < n ==> match last_company_with_id(companies@.take(j as int), (i + 1) as i32) {
                        Some(c) => #[trigger] self.companies@[i] == c,
                        None => self.companies@[i] == base[i],
                    },
                self.users == old(self).users,
                self.zones == old(self).zones,
                self.vehicles == old(self).vehicles,
                self.addresses == old(self).addresses,
                self.next_request_id == old(self).next_request_id,
            decreases n - j,
        {
            let c = companies[j].copied();
            assert(companies@.take(j + 1).drop_last() =~= companies@.take(j as int));
            assert(companies@.take(j + 1).last() == companies@[j as int]);
            let pos = (c.id - 1) as usize;
            let ghost before = self.companies@;
            let ghost cc = c;
            self.companies.set(pos, c);
            proof {
                assert forall|i: int| 0 <= i < n implies match last_company_with_id(companies@.take(j + 1), (i + 1) as i32) {
                    Some(c) => #[trigger] self.companies@[i] == c,
                    None => self.companies@[i] == base[i],
                } by {
                    if i == pos as int {
                        assert(last_company_with_id(companies@.take(j + 1), (i + 1) as i32) == Some(cc));
                    } else {
                        assert(last_company_with_id(companies@.take(j + 1), (i + 1) as i32) == last_company_with_id(
                            companies@.take(j as int),
                            (i + 1) as i32,
                        ));
                        assert(self.companies@[i] == before[i]);
                    }
                }
            }
            j += 1;
        }
        assert(companies@.take(n as int) =~= companies@);
        proof {
            if old(self).wf() && (forall|i: int|
                0 <= i < companies@.len() ==> #[trigger] last_company_with_id(companies@, (i + 1) as i32) is Some) {
                assert forall|i: int| 0 <= i < self.companies@.len() implies #[trigger] self.companies@[i].id == i + 1 by {
                    assert(last_company_with_id(companies@, (i + 1) as i32) is Some);
                    lemma_last_company_has_id(companies@, (i + 1) as i32);
                }
            }
        }
    }

    /// Puts every vehicle at the position its id names (the later of two records with the same
    /// id wins), with no availability and no tours, after the vehicles are cut or padded with
    /// placeholders to as many as were read.
    pub fn load_vehicles(&mut self, vehicles: Vec<VehicleRecord>)
        requires
            vehicles@.len() <= i32::MAX,
            forall|k: int| 0 <= k < vehicles@.len() ==> 1 <= (#[trigger] vehicles@[k]).id <= vehicles@.len(),
        ensures
            final(self).vehicles@.len() == vehicles@.len(),
            forall|i: int|
                0 <= i < vehicles@.len() ==> match last_vehicle_with_id(vehicles@, (i + 1) as i32) {
                    Some(r) => vehicle_from_record(#[trigger] final(self).vehicles@[i], r),
                    None => if i < old(self).vehicles@.len() {
                        final(self).vehicles@[i] == old(self).vehicles@[i]
                    } else {
                        is_placeholder_vehicle(final(self).vehicles@[i])
                    },
                },
            final(self).users == old(self).users,
            final(self).zones == old(self).zones,
            final(self).companies == old(self).companies,
            final(self).addresses == old(self).addresses,
            final(self).next_request_id == old(self).next_request_id,
            old(self).wf() && (forall|i: int|
                0 <= i < vehicles@.len() ==> #[trigger] last_vehicle_with_id(vehicles@, (i + 1) as i32) is Some)
                ==> final(self).wf(),
    {
        let n = vehicles.len();
        if self.vehicles.len() > n {
            self.vehicles.truncate(n);
        }
        let ghost kept = self.vehicles@;
        while self.vehicles.len() < n
            invariant
                self.vehicles@.len() <= n,
                kept.len() <= n,
                kept.len() <= self.vehicles@.len(),
                kept == old(self).vehicles@.take(kept.len() as int),
                forall|i: int| 0 <= i < kept.len() ==> #[trigger] self.vehicles@[i] == kept[i],
                forall|i: int| kept.len() <= i < self.vehicles@.len() ==> is_placeholder_vehicle(#[trigger] self.vehicles@[i]),
                self.users == old(self).users,
                self.zones == old(self).zones,
                self.companies == old(self).companies,
                self.addresses == old(self).addresses,
                self.next_request_id == old(self).next_request_id,
            decreases n - self.vehicles@.len(),
        {
            self.vehicles.push(VehicleData::new());
        }
        let ghost base = self.vehicles@;
        let mut j: usize = 0;
        assert(vehicles@.take(0) =~= Seq::<VehicleRecord>::empty());
        while j < n
            invariant
                n == vehicles@.len(),
                n <= i32::MAX,
                j <= n,
                self.vehicles@.len() == n,
                base.len() == n,
                forall|k: int| 0 <= k < vehicles@.len() ==> 1 <= (#[trigger] vehicles@[k]).id <= vehicles@.len(),
                forall|i: int|
                    0 <= i < n ==> match last_vehicle_with_id(vehicles@.take(j as int), (i + 1) as i32) {
                        Some(r) => vehicle_from_record(#[trigger] self.vehicles@[i], r),
                        None => self.vehicles@[i] == base[i],
                    },
                self.users == old(self).users,
                self.zones == old(self).zones,
                self.companies == old(self).companies,
                self.addresses == old(self).addresses,
                self.next_request_id == old(self).next_request_id,
            decreases n - j,
        {
            let r = &vehicles[j];
            let v = VehicleData {
                id: r.id,
                license_plate: r.license_plate.clone(),
                company: r.company,
                seats: r.seats,
                wheelchair_capacity: r.wheelchair_capacity,
                storage_space: r.storage_space,
                availability: Vec::new(),
                tours: Vec::new(),
            };
            assert(vehicles@.take(j + 1).drop_last() =~= vehicles@.take(j as int));
            assert(vehicles@.take(j + 1).last() == vehicles@[j as int]);
            let pos = (r.id - 1) as usize;
            let ghost before = self.vehicles@;
            let ghost rr = *r;
            self.vehicles.set(pos, v);
            proof {
                assert forall|i: int| 0 <= i < n implies match last_vehicle_with_id(vehicles@.take(j + 1), (i + 1) as i32) {
                    Some(r) => vehicle_from_record(#[trigger] self.vehicles@[i], r),
                    None => self.vehicles@[i] == base[i],
                } by {
                    if i == pos as int {
                        assert(last_vehicle_with_id(vehicles@.take(j + 1), (i + 1) as i32) == Some(rr));
                    } else {
                        assert(last_vehicle_with_id(vehicles@.take(j + 1), (i + 1) as i32) == last_vehicle_with_id(
                            vehicles@.take(j as int),
                            (i + 1) as i32,
                        ));
                        assert(self.vehicles@[i] == before[i]);
                    }
                }
            }
            j += 1;
        }
        assert(vehicles@.take(n as int) =~= vehicles@);
        proof {
            if old(self).wf() && (forall|i: int|
                0 <= i < vehicles@.len() ==> #[trigger] last_vehicle_with_id(vehicles@, (i + 1) as i32) is Some) {
                assert forall|i: int| 0 <= i < self.vehicles@.len() implies #[trigger] self.vehicles@[i].id == i + 1 by {
                    assert(last_vehicle_with_id(vehicles@, (i + 1) as i32) is Some);
                    lemma_last_vehicle_has_id(vehicles@, (i + 1) as i32);
                }
                assert forall|i: int, k: int|
                    0 <= i < self.vehicles@.len() && 0 <= k < self.vehicles@[i].tours@.len() implies #[trigger] self.vehicles@[i].tours@[k].vehicle
                    == i + 1 by {
                    assert(last_vehicle_with_id(vehicles@, (i + 1) as i32) is Some);
                }
                assert(tours_name_their_vehicle(self.vehicles@));
            }
        }
    }

    /// Adds an event read from the database to the first tour with id `tour_id`, which must
    /// exist.
    pub fn load_event(&mut self, tour_id: i32, event: EventData)
        requires
            old(self).wf(),
            first_tour_with_id(old(self).all_tours(), tour_id) is Some,
        ensures
            final(self).wf(),
            ({
                let t = first_tour_with_id(old(self).all_tours(), tour_id).unwrap();
                let o = t.vehicle - 1;
                let before = old(self).vehicles@;
                let after = final(self).vehicles@;
                &&& 0 <= o < before.len()
                &&& others_unchanged(before, after, o)
                &&& same_but_tours(before[o], after[o])
                &&& exists|k: int| #[trigger] is_first_tour_index(before[o].tours@, tour_id, k) && {
                    &&& after[o].tours@.len() == before[o].tours@.len()
                    &&& forall|j: int| 0 <= j < before[o].tours@.len() && j != k ==> #[trigger] after[o].tours@[j] == before[o].tours@[j]
                    &&& after[o].tours@[k].id == before[o].tours@[k].id
                    &&& after[o].tours@[k].departure == before[o].tours@[k].departure
                    &&& after[o].tours@[k].arrival == before[o].tours@[k].arrival
                    &&& after[o].tours@[k].vehicle == before[o].tours@[k].vehicle
                    &&& after[o].tours@[k].events@ == before[o].tours@[k].events@.push(event)
                }
            }),
            final(self).users == old(self).users,
            final(self).zones == old(self).zones,
            final(self).companies == old(self).companies,
            final(self).addresses == old(self).addresses,
            final(self).next_request_id == old(self).next_request_id,
    {
        proof {
            lemma_first_tour_location(self.vehicles@, tour_id);
        }
        let vehicle_id = match self.get_tour(tour_id) {
            Ok(t) => t.vehicle,
            Err(_) => {
                assert(false);
                return;
            },
        };
        let o = (vehicle_id - 1) as usize;
        let k = match crate::changes::first_tour_position(&self.vehicles[o].tours, tour_id) {
            Some(k) => k,
            None => {
                assert(false);
                return;
            },
        };
        let ghost mid = self.vehicles@;
        self.vehicles[o].tours[k].events.push(event);
        proof {
            let after = self.vehicles@;
            assert forall|i: int, j: int| 0 <= i < after.len() && 0 <= j < after[i].tours@.len() implies #[trigger] after[i].tours@[j].vehicle == i + 1 by {
                if i != o {
                    assert(after[i] == mid[i]);
                } else if j != k {
                    assert(after[i].tours@[j] == mid[i].tours@[j]);
                }
            }
            assert(tours_name_their_vehicle(after));
        }
    }

    /// After loading: the next request gets the largest event id.
    pub fn finish_loading(&mut self)
        ensures
            final(self).next_request_id == crate::data::max_or_zero(crate::data::event_ids(old(self).all_events())),
            final(self).users == old(self).users,
            final(self).zones == old(self).zones,
            final(self).companies == old(self).companies,
            final(self).vehicles == old(self).vehicles,
            final(self).addresses == old(self).addresses,
            old(self).wf() ==> final(self).wf(),
    {
        self.next_request_id = self.max_event_id();
    }
}

/// Companies standing at the positions their ids name are each the last company with their
/// id: loading them puts every one back at its position.
pub proof fn lemma_positional_companies_reload(cs: Seq<CompanyData>)
    requires
        forall|k: int| 0 <= k < cs.len() ==> #[trigger] cs[k].id == k + 1,
    ensures
        forall|i: int| 0 <= i < cs.len() ==> #[trigger] last_company_with_id(cs, (i + 1) as i32) == Some(cs[i]),
    decreases cs.len(),
{
    if cs.len() > 0 {
        let prev = cs.drop_last();
        assert forall|k: int| 0 <= k < prev.len() implies #[trigger] prev[k].id == k + 1 by {
            assert(prev[k] == cs[k]);
        }
        lemma_positional_companies_reload(prev);
        assert forall|i: int| 0 <= i < cs.len() implies #[trigger] last_company_with_id(cs, (i + 1) as i32) == Some(cs[i]) by {
            if i < cs.len() - 1 {
                assert(cs.last().id == cs.len());
                assert(last_company_with_id(prev, (i + 1) as i32) == Some(prev[i]));
                assert(prev[i] == cs[i]);
            } else {
                assert(cs[cs.len() - 1] == cs.last());
            }
        }
    }
}

/// Vehicle records standing at the positions their ids name are each the last record with
/// their id: loading them puts every vehicle back at its position.
pub proof fn lemma_positional_vehicles_reload(rs: Seq<VehicleRecord>)
    requires
        forall|k: int| 0 <= k < rs.len() ==> #[trigger] rs[k].id == k + 1,
    ensures
        forall|i: int| 0 <= i < rs.len() ==> #[trigger] last_vehicle_with_id(rs, (i + 1) as i32) == Some(rs[i]),
    decreases rs.len(),
{
    if rs.len() > 0 {
        let prev = rs.drop_last();
        assert forall|k: int| 0 <= k < prev.len() implies #[trigger] prev[k].id == k + 1 by {
            assert(prev[k] == rs[k]);
        }
        lemma_positional_vehicles_reload(prev);
        assert forall|i: int| 0 <= i < rs.len() implies #[trigger] last_vehicle_with_id(rs, (i + 1) as i32) == Some(rs[i]) by {
            if i < rs.len() - 1 {
                assert(rs.last().id == rs.len());
                assert(last_vehicle_with_id(prev, (i + 1) as i32) == Some(prev[i]));
                assert(prev[i] == rs[i]);
            } else {
                assert(rs[rs.len() - 1] == rs.last());
            }
        }
    }
}

/// The last company with an id has that id.
proof fn lemma_last_company_has_id(s: Seq<CompanyData>, id: i32)
    requires
        last_company_with_id(s, id) is Some,
    ensures
        last_company_with_id(s, id).unwrap().id == id,
    decreases s.len(),
{
    if s.last().id != id {
        lemma_last_company_has_id(s.drop_last(), id);
    }
}

/// The last vehicle record with an id has that id.
proof fn lemma_last_vehicle_has_id(s: Seq<VehicleRecord>, id: i32)
    requires
        last_vehicle_with_id(s, id) is Some,
    ensures
        last_vehicle_with_id(s, id).unwrap().id == id,
    decreases s.len(),
{
    if s.last().id != id {
        lemma_last_vehicle_has_id(s.drop_last(), id);
    }
}

/// The users once each row is recorded under its id, in the order read, starting from none:
/// what `upsert_user` makes of the rows one after another.
pub open spec fn users_read(rows: Seq<UserData>) -> Map<i32, UserData>
    decreases rows.len(),
{
    if rows.len() == 0 {
        Map::empty()
    } else {
        users_read(rows.drop_last()).insert(rows.last().id, rows.last())
    }
}

/// Recording rows each of which is the user stored under its id gives a user under each id
/// read, the stored one.
proof fn lemma_users_read_stored(users: Map<i32, UserData>, rows: Seq<UserData>)
    requires
        forall|i: int| 0 <= i < rows.len() ==> users.contains_key((#[trigger] rows[i]).id) && users[rows[i].id] == rows[i],
    ensures
        forall|k: i32| #[trigger] users_read(rows).contains_key(k) <==> exists|i: int| 0 <= i < rows.len() && rows[i].id == k,
        forall|k: i32| #[trigger] users_read(rows).contains_key(k) ==> users_read(rows)[k] == users[k],
    decreases rows.len(),
{
    if rows.len() > 0 {
        let prev = rows.drop_last();
        assert forall|i: int| 0 <= i < prev.len() implies users.contains_key((#[trigger] prev[i]).id) && users[prev[i].id]
            == prev[i] by {
            assert(prev[i] == rows[i]);
        }
        lemma_users_read_stored(users, prev);
        let last = rows.last();
        assert(rows[rows.len() - 1] == last);
        assert forall|k: i32| #[trigger] users_read(rows).contains_key(k) <==> exists|i: int| 0 <= i < rows.len() && rows[i].id == k by {
            if exists|i: int| 0 <= i < rows.len() && rows[i].id == k {
                let i = choose|i: int| 0 <= i < rows.len() && rows[i].id == k;
                if i < prev.len() {
                    assert(prev[i] == rows[i]);
                }
            }
            if users_read(prev).contains_key(k) {
                let i = choose|i: int| 0 <= i < prev.len() && prev[i].id == k;
                assert(prev[i] == rows[i]);
            }
        }
        assert forall|k: i32| #[trigger] users_read(rows).contains_key(k) implies users_read(rows)[k] == users[k] by {
            if k != last.id {
                assert(users_read(prev).contains_key(k));
            }
        }
    }
}

/// Users read back in any order are put back as they were: when each row is the user stored
/// under the row's id and each stored user has a row, recording the rows one after another
/// from no users gives back the stored users.
pub proof fn lemma_users_reload(users: Map<i32, UserData>, rows: Seq<UserData>)
    requires
        forall|i: int| 0 <= i < rows.len() ==> users.contains_key((#[trigger] rows[i]).id) && users[rows[i].id] == rows[i],
        forall|k: i32| #[trigger] users.contains_key(k) ==> exists|i: int| 0 <= i < rows.len() && rows[i].id == k,
    ensures
        users_read(rows) == users,
{
    lemma_users_read_stored(users, rows);
    assert(users_read(rows) =~= users);
}

/// Zones read back in any order are put back as they were: a list ordered by id that holds the
/// same zones as a list ordered by id with no id twice is that list. `load_zones` appends a list
/// ordered by id that holds the zones of the rows whose area is understood.
pub proof fn lemma_zones_reload(zones: Seq<ZoneData>, loaded: Seq<ZoneData>)
    requires
        sorted_by_id(zones),
        forall|i: int, j: int| 0 <= i < zones.len() && 0 <= j < zones.len() && i != j ==> (#[trigger] zones[i]).id
            != (#[trigger] zones[j]).id,
        sorted_by_id(loaded),
        loaded.to_multiset() == zones.to_multiset(),
    ensures
        loaded == zones,
    decreases zones.len(),
{
    broadcast use vstd::seq_lib::group_to_multiset_ensures;

    vstd::seq_lib::to_multiset_len(zones);
    vstd::seq_lib::to_multiset_len(loaded);
    if zones.len() == 0 {
        assert(loaded.len() == 0);
        assert(loaded =~= zones);
    } else {
        assert(loaded.len() == zones.len());
        let a0 = zones[0];
        let b0 = loaded[0];
        assert(zones.contains(a0));
        assert(loaded.to_multiset().count(a0) > 0);
        assert(loaded.contains(a0));
        let j = choose|j: int| 0 <= j < loaded.len() && loaded[j] == a0;
        assert(loaded.contains(b0));
        assert(zones.to_multiset().count(b0) > 0);
        assert(zones.contains(b0));
        let i = choose|i: int| 0 <= i < zones.len() && zones[i] == b0;
        assert(zones[0].id <= zones[i].id);
        assert(loaded[0].id <= loaded[j].id);
        assert(i == 0);
        assert(b0 == a0);
        let zr = zones.remove(0);
        let lr = loaded.remove(0);
        assert(zr.to_multiset() == zones.to_multiset().remove(a0));
        assert(lr.to_multiset() == loaded.to_multiset().remove(b0));
        assert forall|x: int, y: int| 0 <= x <= y < zr.len() implies (#[trigger] zr[x]).id <= (#[trigger] zr[y]).id by {
            assert(zr[x] == zones[x + 1] && zr[y] == zones[y + 1]);
        }
        assert forall|x: int, y: int| 0 <= x <= y < lr.len() implies (#[trigger] lr[x]).id <= (#[trigger] lr[y]).id by {
            assert(lr[x] == loaded[x + 1] && lr[y] == loaded[y + 1]);
        }
        assert forall|x: int, y: int| 0 <= x < zr.len() && 0 <= y < zr.len() && x != y implies (#[trigger] zr[x]).id
            != (#[trigger] zr[y]).id by {
            assert(zr[x] == zones[x + 1] && zr[y] == zones[y + 1]);
        }
        lemma_zones_reload(zr, lr);
        assert(loaded =~= zones) by {
            assert forall|x: int| 0 <= x < zones.len() implies loaded[x] == zones[x] by {
                if x > 0 {
                    assert(lr[x - 1] == loaded[x]);
                    assert(zr[x - 1] == zones[x]);
                }
            }
        }
    }
}

} // verus!
