use prima::changes::RequestEvents;
use prima::data::Data;
use prima::interval::Interval;
use prima::records::{Coordinates, UserData};
use prima::status::Status;
use prima::traits::{PrimaCompany, PrimaTour, PrimaUser, PrimaVehicle};

fn ts(y: i32, mo: u32, d: u32, h: u32, mi: u32) -> i64 {
    chrono::NaiveDate::from_ymd_opt(y, mo, d)
        .unwrap()
        .and_hms_opt(h, mi, 0)
        .unwrap()
        .and_utc()
        .timestamp()
}

fn point(lat: f64, lng: f64) -> Coordinates {
    Coordinates { x_bits: lat.to_bits(), y_bits: lng.to_bits() }
}

fn user(id: i32, name: &str, email: &str, is_driver: bool) -> UserData {
    UserData {
        id,
        name: name.to_string(),
        is_driver,
        is_admin: false,
        email: email.to_string(),
        password: Some(String::new()),
        salt: String::new(),
        o_auth_id: None,
        o_auth_provider: None,
    }
}

/// Adds a tour with a pickup and a drop-off for customer 2, the way the service does once the
/// database has answered with the ids `tour_id`, `first_event_id` and the one after it.
fn add_test_tour(d: &mut Data, vehicle: i32, tour_id: i32, first_event_id: i32, year: i32) -> Status {
    let departure = ts(year, 4, 15, 9, 10);
    let arrival = ts(year, 4, 15, 10, 0);
    let sched_t_start = ts(year, 4, 15, 9, 15);
    let sched_t_target = ts(year, 4, 15, 9, 55);
    match d.plan_insert_or_addto_tour(None, departure, arrival, vehicle, 2, sched_t_start, sched_t_target) {
        Err(e) => e,
        Ok(existing) => {
            assert_eq!(existing, None);
            d.add_tour(vehicle, tour_id, departure, arrival);
            let events = RequestEvents {
                start_event_id: first_event_id,
                target_event_id: first_event_id + 1,
                start_coordinates: point(13.867512, 51.22069),
                target_coordinates: point(14.025081, 51.195075),
                sched_t_start,
                comm_t_start: ts(year, 4, 15, 9, 12),
                sched_t_target,
                comm_t_target: ts(year, 4, 15, 9, 18),
                customer: 2,
                passengers: 3,
                wheelchairs: 0,
                luggage: 0,
                request_id: 1,
            };
            d.add_event_pair(vehicle, tour_id, events)
        }
    }
}

/// Three zones, two companies, seven vehicles (1 to 5 of the first company), three users and
/// a tour of vehicle 1 in the morning of 15 April 5000 with two events of user 2.
fn setup() -> Data {
    let mut d = Data::new();
    for (id, name) in [(1, "Bautzen Ost"), (2, "Bautzen West"), (3, "Görlitz")] {
        assert_eq!(d.plan_create_zone(&name.to_string(), true), Ok(()));
        d.add_zone(id, name.to_string(), "area".to_string());
    }
    for (id, name, zone) in [(1, "Taxi-Unternehmen Bautzen-1", 1), (2, "Taxi-Unternehmen Görlitz-1", 3)] {
        assert_eq!(d.plan_create_company(&name.to_string(), zone), Ok(()));
        d.add_company(id, name.to_string(), zone, point(51.2, 14.4));
    }
    for id in 1..=7 {
        let company = if id <= 5 { 1 } else { 2 };
        let plate = format!("TUB{}-{}", company, id);
        let v = d.plan_create_vehicle(&plate, company).ok().unwrap();
        d.add_vehicle(id, v);
    }
    d.upsert_user(user(1, "TestDriver1", "test@aol.com", true));
    d.upsert_user(user(2, "Customer", "customer@web.de", false));
    d.upsert_user(user(3, "Admin", "admin@web.de", false));
    let departure = ts(5000, 4, 15, 9, 0);
    let arrival = ts(5000, 4, 15, 10, 30);
    d.add_tour(1, 1, departure, arrival);
    let events = RequestEvents {
        start_event_id: 1,
        target_event_id: 2,
        start_coordinates: point(51.18, 14.42),
        target_coordinates: point(51.15, 14.98),
        sched_t_start: ts(5000, 4, 15, 9, 20),
        comm_t_start: ts(5000, 4, 15, 9, 15),
        sched_t_target: ts(5000, 4, 15, 10, 10),
        comm_t_target: ts(5000, 4, 15, 10, 15),
        customer: 2,
        passengers: 1,
        wheelchairs: 0,
        luggage: 0,
        request_id: 1,
    };
    assert_eq!(d.add_event_pair(1, 1, events), Status::Created);
    d.finish_loading();
    d
}

fn all_time() -> (i64, i64) {
    (
        chrono::NaiveDateTime::MIN.and_utc().timestamp(),
        chrono::NaiveDateTime::MAX.and_utc().timestamp(),
    )
}

#[test]
fn conflicts_follow_a_moved_tour() {
    let mut d = setup();
    assert_eq!(d.vehicles.len(), 7);
    assert_eq!(d.zones.len(), 3);
    assert_eq!(d.companies.len(), 2);
    assert_eq!(d.next_request_id, 2);

    assert_eq!(d.change_vehicle_for_tour(1, 2), Status::Accepted);
    assert_eq!(d.vehicles[0].tours.len(), 0);
    assert_eq!(d.vehicles[1].tours[0].vehicle, 2);

    for company in d.companies.iter() {
        let conflicts = d.get_company_conflicts(company.id, 1, true).unwrap_or_default();
        assert_eq!(conflicts.is_empty(), company.id != 1);
        for (v, tours) in conflicts.iter() {
            assert_eq!(company.id, 1);
            assert_eq!(tours.is_empty(), *v != 2);
        }
    }

    for u in d.users.values() {
        let events = d
            .get_events_for_user(u.id, ts(2024, 1, 1, 1, 0), ts(6000, 4, 15, 14, 0))
            .unwrap();
        // only user 2 has events
        assert_eq!(events.is_empty(), u.id != 2);
        if u.id == 2 {
            assert_eq!(events.len(), 2);
        }
    }

    let (min, max) = all_time();
    assert_eq!(d.vehicles[1].tours.len(), 1);
    assert_eq!(d.get_events_for_vehicle(2, min, max).unwrap().len(), 2);
    assert_eq!(add_test_tour(&mut d, 2, 2, 3, 5000), Status::Created);
    assert_eq!(d.vehicles[1].tours.len(), 2);
    assert_eq!(d.get_events_for_vehicle(2, min, max).unwrap().len(), 4);

    for company in d.companies.iter() {
        let conflicts = d.get_company_conflicts(company.id, 1, true).unwrap_or_default();
        assert_eq!(conflicts.is_empty(), company.id != 1);
        for (v, tours) in conflicts.iter() {
            assert_eq!(company.id, 1);
            assert_eq!(tours.is_empty(), *v != 2);
            assert_eq!(tours.len() == 2, *v == 2);
        }
    }

    assert_eq!(add_test_tour(&mut d, 7, 3, 5, 5000), Status::Created);
    assert_eq!(d.vehicles[1].tours.len(), 2);
    assert_eq!(d.get_events_for_vehicle(2, min, max).unwrap().len(), 4);
    assert_eq!(d.vehicles[6].tours.len(), 1);
    assert_eq!(d.get_events_for_vehicle(7, min, max).unwrap().len(), 2);
    for tour_id in 1..4 {
        // vehicle 2 has tours 1 and 2, vehicle 7 has tour 3, no other vehicle has tours
        if tour_id == 3 {
            assert_eq!(d.get_vehicle_conflicts(2, tour_id, true).unwrap().len(), 2);
            assert_eq!(d.get_vehicle_conflicts(2, tour_id, false).unwrap().len(), 2);
            assert_eq!(d.get_vehicle_conflicts(7, tour_id, true).unwrap().len(), 1);
            assert_eq!(d.get_vehicle_conflicts(7, tour_id, false).unwrap().len(), 0);
        } else {
            assert_eq!(d.get_vehicle_conflicts(2, tour_id, true).unwrap().len(), 2);
            assert_eq!(d.get_vehicle_conflicts(2, tour_id, false).unwrap().len(), 1);
            assert_eq!(d.get_vehicle_conflicts(7, tour_id, true).unwrap().len(), 1);
            assert_eq!(d.get_vehicle_conflicts(7, tour_id, false).unwrap().len(), 1);
        }
        for v_id in 1..d.vehicles.len() + 1 {
            if v_id == 7 || v_id == 2 {
                continue;
            }
            assert_eq!(d.get_vehicle_conflicts(v_id as i32, tour_id, true).unwrap().len(), 0);
        }
    }
    assert_eq!(d.get_n_tours(), 3);
    assert_eq!(d.max_tour_id(), 3);
    assert_eq!(d.max_event_id(), 6);
}

#[test]
fn moving_a_tour_keeps_the_number_of_tours() {
    let mut d = setup();
    assert_eq!(d.get_n_tours(), 1);
    assert_eq!(d.change_vehicle_for_tour(1, 3), Status::Accepted);
    assert_eq!(d.get_n_tours(), 1);
    assert_eq!(d.get_tour(1).unwrap().vehicle, 3);
    // moving to the vehicle it already has keeps it there
    assert_eq!(d.change_vehicle_for_tour(1, 3), Status::Accepted);
    assert_eq!(d.vehicles[2].tours.len(), 1);
    // unknown tours and vehicles are not found, and nothing moves
    assert_eq!(d.change_vehicle_for_tour(50, 1), Status::NotFound);
    assert_eq!(d.change_vehicle_for_tour(1, 50), Status::NotFound);
    assert_eq!(d.change_vehicle_for_tour(1, 0), Status::NotFound);
    assert_eq!(d.change_vehicle_for_tour(50, -1), Status::NotFound);
    assert_eq!(d.vehicles[2].tours.len(), 1);
}

#[test]
fn unknown_ids_are_not_found() {
    let d = setup();
    let (min, max) = all_time();
    let in_2_hours = ts(5000, 1, 1, 12, 0);
    let in_3_hours = ts(5000, 1, 1, 13, 0);
    assert_eq!(d.get_tour_conflicts(0, None).err(), Some(Status::NotFound));
    assert!(d.get_tour_conflicts(1, None).is_ok());
    assert_eq!(d.get_tour_conflicts(3, None).err(), Some(Status::NotFound));
    assert_eq!(d.get_tour_conflicts(1, Some(0)).err(), Some(Status::NotFound));
    assert!(d.get_tour_conflicts(1, Some(2)).is_ok());
    assert_eq!(d.get_tour_conflicts(1, Some(3)).err(), Some(Status::NotFound));
    assert_eq!(d.get_company_conflicts(0, 1, true).err(), Some(Status::NotFound));
    assert_eq!(d.get_company_conflicts(3, 1, true).err(), Some(Status::NotFound));
    assert_eq!(d.get_company_conflicts(1, 2, true).err(), Some(Status::NotFound));
    assert_eq!(d.get_events_for_user(0, in_2_hours, in_3_hours).err(), Some(Status::NotFound));
    assert!(d.get_events_for_user(3, in_2_hours, in_3_hours).is_ok());
    assert_eq!(d.get_events_for_user(4, in_2_hours, in_3_hours).err(), Some(Status::NotFound));
    assert_eq!(d.get_vehicles(0).err(), Some(Status::NotFound));
    assert_eq!(d.get_vehicles(1).unwrap().len(), 5);
    assert_eq!(d.get_vehicles(2).unwrap().len(), 2);
    assert_eq!(d.get_vehicles(3).err(), Some(Status::NotFound));
    assert_eq!(d.get_vehicle_conflicts(50, 1, true).err(), Some(Status::NotFound));
    assert_eq!(d.get_vehicle_conflicts(1, 50, true).err(), Some(Status::NotFound));
    assert_eq!(d.get_events_for_tour(50).err(), Some(Status::NotFound));
    assert_eq!(d.get_events_for_tour(1).unwrap().len(), 2);
    assert_eq!(d.is_vehicle_available(50, 1), Err(Status::NotFound));
    assert_eq!(d.is_vehicle_available(2, 1), Err(Status::NotFound));
    assert_eq!(d.is_vehicle_idle(1, 50, true), Err(Status::NotFound));
    assert_eq!(d.is_vehicle_idle(50, 1, true), Err(Status::NotFound));
    // a negative vehicle id with an unknown tour is not found either
    assert_eq!(d.is_vehicle_idle(-1, 50, true), Err(Status::NotFound));
    assert_eq!(d.get_vehicle_conflicts(-1, 50, true).err(), Some(Status::NotFound));
    assert_eq!(d.get_idle_vehicles(1, 50, true).err(), Some(Status::NotFound));
    assert_eq!(d.get_idle_vehicles(50, 1, true).err(), Some(Status::NotFound));
    assert_eq!(d.get_events_for_vehicle(50, in_2_hours, in_3_hours).err(), Some(Status::NotFound));
    assert_eq!(d.get_tours(50, in_2_hours, in_3_hours).err(), Some(Status::NotFound));
    assert_eq!(d.get_tour(50).err(), Some(Status::NotFound));
    assert_eq!(d.get_availability_intervals(50, min, max).err(), Some(Status::NotFound));
    assert_eq!(d.get_availability_intervals(-1, min, max).err(), Some(Status::InternalServerError));
    assert_eq!(d.get_company(5).err(), Some(Status::NotFound));
    assert_eq!(d.get_company(-1).err(), Some(Status::NotFound));
    assert_eq!(d.get_company(1).unwrap().get_name(), "Taxi-Unternehmen Bautzen-1");
    // the search stops below the last company
    assert_eq!(d.get_company(2).err(), Some(Status::NotFound));
}

#[test]
fn time_frames_are_not_limited() {
    let d = setup();
    let (min, max) = all_time();
    assert_eq!(d.get_tours(1, min, max).unwrap().len(), 1);
    assert!(d.get_events_for_user(1, min, max).is_ok());
    assert!(d.get_events_for_tour(1).is_ok());
    assert_eq!(d.get_events_for_vehicle(1, min, max).unwrap().len(), 2);
    // a frame that ends when the tour departs does not overlap it
    let departure = ts(5000, 4, 15, 9, 0);
    assert_eq!(d.get_tours(1, departure - 3600, departure).unwrap().len(), 0);
    assert_eq!(d.get_tours(1, departure - 3600, departure + 1).unwrap().len(), 1);
}

#[test]
fn idle_and_available_vehicles() {
    let mut d = setup();
    // vehicle 1 has tour 1; the other vehicles of company 1 are idle during it
    let idle = d.get_idle_vehicles(1, 1, true).unwrap();
    let ids: Vec<i32> = idle.iter().map(|v| v.get_id()).collect();
    assert_eq!(ids, vec![2, 3, 4, 5]);
    // the idle vehicles of the company are those that have no conflicts listed
    let conflicts = d.get_company_conflicts(1, 1, true).unwrap();
    let without: Vec<i32> = d.vehicles.iter().filter(|v| v.company == 1 && !conflicts.contains_key(&v.id)).map(|v| v.id).collect();
    assert_eq!(without, ids);
    // leaving the tour itself out, vehicle 1 is idle too
    let idle = d.get_idle_vehicles(1, 1, false).unwrap();
    assert_eq!(idle.len(), 5);
    assert_eq!(d.is_vehicle_idle(1, 1, true), Ok(false));
    assert_eq!(d.is_vehicle_idle(1, 1, false), Ok(true));
    assert_eq!(d.is_vehicle_idle(2, 1, true), Ok(true));
    assert_eq!(d.is_vehicle_idle_during(1, ts(5000, 4, 15, 10, 0), ts(5000, 4, 15, 11, 0)), Ok(false));
    assert_eq!(d.is_vehicle_idle_during(1, ts(5000, 4, 15, 10, 30), ts(5000, 4, 15, 11, 0)), Ok(true));

    // no window holds the tour yet
    assert_eq!(d.is_vehicle_available(1, 1), Ok(false));
    let window = Interval::new(ts(5000, 4, 15, 8, 0), ts(5000, 4, 15, 12, 0));
    assert_eq!(d.insert_availability_entry(1, 1, window), Status::Created);
    assert_eq!(d.is_vehicle_available(1, 1), Ok(true));
    let (min, max) = all_time();
    let found = d.get_availability_intervals(1, min, max).unwrap();
    assert_eq!(found.len(), 1);
    assert_eq!(*found[0], window);
    assert_eq!(d.get_availability_intervals(1, ts(5000, 4, 15, 12, 0), max).unwrap().len(), 0);

    // a time frame with a tour in it cannot be taken away from the availability
    assert_eq!(
        d.plan_remove_availability(ts(5000, 4, 15, 8, 0), ts(5000, 4, 15, 9, 30), 1).err(),
        Some(Status::NotAcceptable)
    );
}

#[test]
fn tour_conflicts_of_an_event() {
    let mut d = setup();
    assert_eq!(add_test_tour(&mut d, 6, 2, 3, 5000), Status::Created);
    assert_eq!(add_test_tour(&mut d, 3, 3, 5, 5001), Status::Created);
    // event 1 is communicated at 9:15 and scheduled at 9:20 on 15 April 5000
    assert_eq!(d.get_tour_conflicts(1, None).unwrap().len(), 2);
    assert_eq!(d.get_tour_conflicts(1, Some(1)).unwrap().len(), 1);
    assert_eq!(d.get_tour_conflicts(1, Some(2)).unwrap()[0].id, 2);
    assert_eq!(d.get_tour_conflicts(5, None).unwrap()[0].id, 3);
}

#[test]
fn adding_to_an_existing_tour_checks_it() {
    let mut d = setup();
    let dep = ts(5000, 4, 15, 9, 10);
    let arr = ts(5000, 4, 15, 10, 0);
    assert_eq!(d.plan_insert_or_addto_tour(Some(1), dep, arr, 1, 2, dep, arr), Ok(Some(1)));
    assert_eq!(
        d.plan_insert_or_addto_tour(Some(5), dep, arr, 1, 2, dep, arr),
        Err(Status::ExpectationFailed)
    );
    // an unknown customer or vehicle is a failed expectation
    assert_eq!(d.plan_insert_or_addto_tour(None, dep, arr, 1, 4, dep, arr), Err(Status::ExpectationFailed));
    assert_eq!(d.plan_insert_or_addto_tour(None, dep, arr, 1, 0, dep, arr), Err(Status::ExpectationFailed));
    assert_eq!(d.plan_insert_or_addto_tour(None, dep, arr, 100, 2, dep, arr), Err(Status::ExpectationFailed));
    assert_eq!(d.plan_insert_or_addto_tour(None, dep, arr, 0, 2, dep, arr), Err(Status::ExpectationFailed));
    // a tour of another vehicle is not this vehicle's tour
    assert_eq!(d.plan_insert_or_addto_tour(Some(1), dep, arr, 2, 2, dep, arr), Err(Status::ExpectationFailed));
    // a customer is known by id, whatever the number of users
    d.upsert_user(user(9, "Late", "late@web.de", false));
    assert_eq!(d.plan_insert_or_addto_tour(None, dep, arr, 1, 9, dep, arr), Ok(None));
    // a tour is known by id, whatever the number of tours
    d.add_tour(1, 42, dep, arr);
    assert_eq!(d.plan_insert_or_addto_tour(Some(42), dep, arr, 1, 2, dep, arr), Ok(Some(42)));
    // a window in the past is not acceptable, before anything else is checked
    let past = ts(2024, 4, 15, 9, 10);
    assert_eq!(
        d.plan_insert_or_addto_tour(None, past, past + 3000, 100, 2, past, past + 3000),
        Err(Status::NotAcceptable)
    );
    assert_eq!(d.plan_insert_or_addto_tour(None, dep, arr, 1, 2, past, arr), Err(Status::NotAcceptable));
}

#[test]
fn events_land_in_the_named_tour_at_one_address() {
    let mut d = setup();
    assert_eq!(add_test_tour(&mut d, 1, 2, 3, 5001), Status::Created);
    let t = d.get_tour(2).unwrap();
    assert_eq!(t.events.len(), 2);
    assert!(t.events[0].is_pickup);
    assert!(!t.events[1].is_pickup);
    assert_eq!(t.events[0].tour, 2);
    assert_eq!(t.events[0].id, 3);
    assert_eq!(t.events[1].id, 4);
    assert_eq!(t.events[0].address_id, t.events[1].address_id);
    assert_eq!(d.addresses.len(), 1);
    assert_eq!(d.addresses[0].street, "street");
    assert_eq!(t.get_vehicle_license_plate(), "");
    // the first event of a tour is the earliest, the last the latest
    assert_eq!(t.get_first_event().unwrap().id, 3);
    assert_eq!(t.get_last_event().unwrap().id, 4);
}

#[test]
fn trait_views_of_records() {
    let d = setup();
    let v = &d.vehicles[0];
    assert_eq!(v.get_id(), 1);
    assert_eq!(v.get_license_plate(), "TUB1-1");
    assert_eq!(v.get_company_id(), 1);
    assert_eq!(v.get_tours().len(), 1);
    let c = &d.companies[1];
    assert_eq!(c.get_id(), 2);
    assert_eq!(c.get_name(), "Taxi-Unternehmen Görlitz-1");
    let u = &d.users[&1];
    assert_eq!(PrimaUser::get_id(u), 1);
    assert!(u.is_driver());
    assert!(!u.is_disponent());
    assert!(!u.is_admin());
    assert_eq!(PrimaUser::get_company_id(u), None);
}

#[test]
fn positional_lookups() {
    let d = setup();
    let e = d.get_event(1, 1, 2);
    assert_eq!(e.id, 2);
    assert!(!e.is_pickup);
    assert_eq!(d.get_company_ref(2).name, "Taxi-Unternehmen Görlitz-1");
    let t = &d.vehicles[0].tours[0];
    let morning = Interval::new(ts(5000, 4, 15, 8, 0), ts(5000, 4, 15, 9, 1));
    assert!(t.overlaps(&morning));
    assert!(t.any_tour_event_overlaps(&morning));
    assert!(!t.any_tour_event_overlaps(&Interval::new(ts(5000, 4, 15, 10, 30), ts(5000, 4, 15, 11, 0))));
}
