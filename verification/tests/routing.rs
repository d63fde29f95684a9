use geo::{Contains, LineString, MultiPolygon, Point, Polygon};
use prima::changes::RequestEvents;
use prima::data::Data;
use prima::interval::Interval;
use prima::records::Coordinates;
use prima::routing::{concatenation_cases, request_times, Booking, TourConcatenationCase};
use prima::status::Status;

fn ts(y: i32, mo: u32, d: u32, h: u32, mi: u32) -> i64 {
    chrono::NaiveDate::from_ymd_opt(y, mo, d)
        .unwrap()
        .and_hms_opt(h, mi, 0)
        .unwrap()
        .and_utc()
        .timestamp()
}

fn at(h: u32, mi: u32) -> i64 {
    ts(5000, 4, 15, h, mi)
}

fn origin() -> Coordinates {
    Coordinates { x_bits: 0, y_bits: 0 }
}

fn events(first_id: i32, start: i64, target: i64) -> RequestEvents {
    RequestEvents {
        start_event_id: first_id,
        target_event_id: first_id + 1,
        start_coordinates: origin(),
        target_coordinates: origin(),
        sched_t_start: start,
        comm_t_start: start,
        sched_t_target: target,
        comm_t_target: target,
        customer: 1,
        passengers: 1,
        wheelchairs: 0,
        luggage: 0,
        request_id: first_id,
    }
}

/// Two zones; company 1 in zone 1 with vehicles 1, 2 and 4, company 2 in zone 2 with
/// vehicle 3. All are available all day on 15 April 5000; vehicles 1 and 2 have a tour around
/// noon, vehicle 4 one in the early morning and one in the afternoon.
fn setup() -> Data {
    let mut d = Data::new();
    d.add_zone(1, "Bautzen Ost".to_string(), "area".to_string());
    d.add_zone(2, "Görlitz".to_string(), "area".to_string());
    d.add_company(1, "Taxi-Unternehmen Bautzen-1".to_string(), 1, origin());
    d.add_company(2, "Taxi-Unternehmen Görlitz-1".to_string(), 2, origin());
    for (id, company) in [(1, 1), (2, 1), (3, 2), (4, 1)] {
        let v = d.plan_create_vehicle(&format!("V-{}", id), company).ok().unwrap();
        d.add_vehicle(id, v);
    }
    let day = Interval::new(at(5, 0), at(20, 0));
    for v in 1..=4 {
        assert_eq!(d.insert_availability_entry(v, v, day), Status::Created);
    }
    d.add_tour(2, 1, at(11, 30), at(12, 10));
    d.add_event_pair(2, 1, events(1, at(11, 40), at(12, 0)));
    d.add_tour(1, 4, at(11, 50), at(12, 40));
    d.add_event_pair(1, 4, events(7, at(12, 0), at(12, 30)));
    d.add_tour(4, 2, at(6, 0), at(7, 0));
    d.add_event_pair(4, 2, events(3, at(6, 10), at(6, 50)));
    d.add_tour(4, 3, at(15, 0), at(16, 0));
    d.add_event_pair(4, 3, events(5, at(15, 10), at(15, 50)));
    d
}

#[test]
fn trip_times_from_the_fixed_time() {
    assert_eq!(request_times(1000, true, 300), (1000, 1300));
    assert_eq!(request_times(1000, false, 300), (700, 1000));
}

#[test]
fn zones_holding_the_start() {
    let d = setup();
    let square = |x0: f64, y0: f64| {
        MultiPolygon::new(vec![Polygon::new(
            LineString::from(vec![(x0, y0), (x0 + 1.0, y0), (x0 + 1.0, y0 + 1.0), (x0, y0 + 1.0), (x0, y0)]),
            vec![],
        )])
    };
    let areas = vec![square(0.0, 0.0), square(5.0, 5.0)];
    let start = Point::new(0.5, 0.5);
    let flags: Vec<bool> = areas.iter().map(|a| a.contains(&start)).collect();
    let zone_ids = d.get_zones_containing_point_ids(&flags);
    assert_eq!(zone_ids, vec![1]);
    let companies = d.get_start_point_viable_companies(&zone_ids);
    assert_eq!(companies.len(), 1);
    assert_eq!(companies[0].id, 1);
    let outside: Vec<bool> = areas.iter().map(|a| a.contains(&Point::new(3.0, 3.0))).collect();
    assert!(d.get_zones_containing_point_ids(&outside).is_empty());
}

#[test]
fn viable_vehicles_are_free_available_and_in_the_zone() {
    let d = setup();
    let noon = Interval::new(at(12, 0), at(12, 30));
    let ids: Vec<i32> = d.get_viable_vehicles(&noon, 2, &vec![1]).iter().map(|v| v.id).collect();
    // 1 and 2 have a tour then, 3 is in another zone
    assert_eq!(ids, vec![4]);
    let ids: Vec<i32> = d.get_viable_vehicles(&noon, 2, &vec![1, 2]).iter().map(|v| v.id).collect();
    assert_eq!(ids, vec![3, 4]);
    assert!(d.get_viable_vehicles(&noon, 4, &vec![1, 2]).is_empty());
    // no availability window holds the late window
    let late = Interval::new(at(19, 30), at(20, 30));
    assert!(d.get_viable_vehicles(&late, 2, &vec![1]).is_empty());
    // once one does, the vehicle is a candidate, until a tour of it overlaps the window
    let mut d = d;
    assert_eq!(d.insert_availability_entry(2, 9, Interval::new(at(19, 0), at(22, 0))), Status::Created);
    let ids: Vec<i32> = d.get_viable_vehicles(&late, 2, &vec![1]).iter().map(|v| v.id).collect();
    assert_eq!(ids, vec![2]);
    d.add_tour(2, 5, at(19, 0), at(21, 0));
    d.add_event_pair(2, 5, events(9, at(19, 10), at(20, 50)));
    assert!(d.get_viable_vehicles(&late, 2, &vec![1]).is_empty());
}

#[test]
fn a_request_joins_the_tours_around_it() {
    let d = setup();
    let now = at(0, 0);
    let plan = d.plan_routing_request_at(at(12, 0), true, 2, 30, &vec![1], now).ok().unwrap();
    assert_eq!(plan.start_time, at(12, 0));
    assert_eq!(plan.target_time, at(12, 30));
    assert_eq!(plan.candidates, vec![4]);
    assert_eq!(
        plan.cases,
        vec![
            TourConcatenationCase::NewTour { company_id: 1 },
            TourConcatenationCase::Insert {
                vehicle_id: 4,
                predecessor_tour_id: 2,
                successor_tour_id: 2,
                predecessor_event_id: 4,
                successor_event_id: 3,
            },
            TourConcatenationCase::Append { vehicle_id: 4, predecessor_tour_id: 2, predecessor_event_id: 4 },
        ]
    );
    // with the target fixed the trip ends at the fixed time
    let plan = d.plan_routing_request_at(at(12, 30), false, 2, 30, &vec![1], now).ok().unwrap();
    assert_eq!((plan.start_time, plan.target_time), (at(12, 0), at(12, 30)));
}

#[test]
fn a_request_is_refused_early() {
    let d = setup();
    // the fixed time has passed
    assert_eq!(
        d.plan_routing_request_at(at(12, 0), true, 2, 30, &vec![1], at(12, 1)).err(),
        Some(Status::NotAcceptable)
    );
    // too many passengers
    assert_eq!(
        d.plan_routing_request_at(at(12, 0), true, 4, 30, &vec![1], at(0, 0)).err(),
        Some(Status::NoContent)
    );
    // less than an hour to prepare
    assert_eq!(
        d.plan_routing_request_at(at(12, 0), true, 2, 30, &vec![1], at(11, 30)).err(),
        Some(Status::NoContent)
    );
    assert_eq!(
        d.plan_routing_request_at(at(13, 0), false, 2, 30, &vec![1], at(11, 31)).err(),
        Some(Status::NoContent)
    );
}

#[test]
fn a_candidate_without_tours_fails_the_request() {
    let mut d = setup();
    // an available vehicle with no tours is a candidate
    let v = d.plan_create_vehicle(&"V-5".to_string(), 1).ok().unwrap();
    d.add_vehicle(5, v);
    assert_eq!(d.insert_availability_entry(5, 5, Interval::new(at(5, 0), at(20, 0))), Status::Created);
    assert_eq!(
        d.plan_routing_request_at(at(12, 0), true, 2, 30, &vec![1], at(0, 0)).err(),
        Some(Status::InternalServerError)
    );
    let noon = Interval::new(at(12, 0), at(12, 30));
    let candidates = d.get_viable_vehicles(&noon, 2, &vec![1]);
    assert_eq!(candidates.len(), 2);
    assert_eq!(
        concatenation_cases(&candidates, &noon, at(12, 0), at(12, 30)).err(),
        Some(Status::InternalServerError)
    );
}

#[test]
fn prepend_when_the_earlier_tour_departs_after_the_target() {
    // a tour whose events were scheduled before its departure ends before the request starts
    // and departs after it ends
    let mut d = Data::new();
    d.add_zone(1, "Bautzen Ost".to_string(), "area".to_string());
    d.add_company(1, "Taxi-Unternehmen Bautzen-1".to_string(), 1, origin());
    let v = d.plan_create_vehicle(&"V-1".to_string(), 1).ok().unwrap();
    d.add_vehicle(1, v);
    assert_eq!(d.insert_availability_entry(1, 1, Interval::new(at(0, 0), at(23, 0))), Status::Created);
    d.add_tour(1, 1, at(10, 0), at(11, 0));
    d.add_event_pair(1, 1, events(1, at(2, 0), at(2, 30)));
    let plan = d.plan_routing_request_at(at(3, 0), true, 1, 10, &vec![1], at(0, 0)).ok().unwrap();
    assert_eq!(plan.candidates, vec![1]);
    assert_eq!(
        plan.cases,
        vec![
            TourConcatenationCase::NewTour { company_id: 1 },
            TourConcatenationCase::Insert {
                vehicle_id: 1,
                predecessor_tour_id: 1,
                successor_tour_id: 1,
                predecessor_event_id: 2,
                successor_event_id: 1,
            },
            TourConcatenationCase::Prepend { vehicle_id: 1, successor_tour_id: 1, successor_event_id: 1 },
        ]
    );
}

#[test]
fn request_ids_count_up() {
    let mut d = Data::new();
    assert_eq!(d.next_request_id, 1);
    assert_eq!(d.take_next_request_id(), 2);
    assert_eq!(d.take_next_request_id(), 3);
    assert_eq!(d.next_request_id, 3);
}

#[test]
fn booking_after_the_road_time_is_known() {
    let mut d = setup();
    let before = d.next_request_id;
    // 30 minutes and 59 seconds on the road count as 30 minutes
    let booking = d.decide_booking(at(12, 0), true, 30 * 60 + 59, at(0, 0)).ok().unwrap();
    assert_eq!(
        booking,
        Booking { start_time: at(12, 0), target_time: at(12, 30), vehicle: 1, passengers: 1, request_id: before + 1 }
    );
    assert_eq!(d.next_request_id, before + 1);
    let booking = d.decide_booking(at(12, 30), false, 1800, at(0, 0)).ok().unwrap();
    assert_eq!((booking.start_time, booking.target_time), (at(12, 0), at(12, 30)));
    assert_eq!(booking.request_id, before + 2);
    // less than an hour to prepare changes nothing
    assert_eq!(d.decide_booking(at(12, 30), false, 1800, at(11, 1)).err(), Some(Status::NoContent));
    assert_eq!(d.next_request_id, before + 2);
}
