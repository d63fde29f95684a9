use prima::data::Data;
use prima::interval::Interval;
use prima::loading::{LoadedZone, VehicleRecord};
use prima::records::{CompanyData, Coordinates, EventData, ZoneData};
use prima::status::Status;

fn zone(id: i32, name: &str, valid: bool) -> LoadedZone {
    LoadedZone {
        zone: ZoneData { area: "area".to_string(), name: name.to_string(), id },
        area_is_valid: valid,
    }
}

fn company(id: i32, name: &str, zone: i32) -> CompanyData {
    CompanyData { id, central_coordinates: Coordinates { x_bits: 1, y_bits: 2 }, zone, name: name.to_string() }
}

fn record(id: i32, plate: &str, company: i32) -> VehicleRecord {
    VehicleRecord {
        id,
        license_plate: plate.to_string(),
        company,
        seats: 3,
        wheelchair_capacity: 0,
        storage_space: 0,
    }
}

fn event(id: i32, tour: i32, time: i64) -> EventData {
    EventData {
        id,
        coordinates: Coordinates { x_bits: 0, y_bits: 0 },
        scheduled_time: time,
        communicated_time: time,
        customer: 1,
        tour,
        passengers: 1,
        wheelchairs: 0,
        luggage: 0,
        request_id: id,
        is_pickup: id % 2 == 1,
        address_id: 1,
    }
}

#[test]
fn zones_are_kept_in_id_order_without_unreadable_areas() {
    let mut d = Data::new();
    d.load_zones(vec![zone(3, "Görlitz", true), zone(1, "Bautzen Ost", true), zone(2, "kaputt", false), zone(4, "Zittau", true)]);
    let ids: Vec<i32> = d.zones.iter().map(|z| z.id).collect();
    assert_eq!(ids, vec![1, 3, 4]);
}

#[test]
fn companies_and_vehicles_stand_where_their_ids_say() {
    let mut d = Data::new();
    d.load_companies(vec![company(2, "B", 1), company(1, "A", 1)]);
    assert_eq!(d.companies.len(), 2);
    assert_eq!((d.companies[0].id, d.companies[0].name.as_str()), (1, "A"));
    assert_eq!((d.companies[1].id, d.companies[1].name.as_str()), (2, "B"));
    d.load_vehicles(vec![record(3, "C", 1), record(1, "A", 2), record(2, "B", 1)]);
    let plates: Vec<&str> = d.vehicles.iter().map(|v| v.license_plate.as_str()).collect();
    assert_eq!(plates, vec!["A", "B", "C"]);
    assert_eq!(d.vehicles[0].company, 2);
    assert_eq!(d.max_vehicle_id(), 3);
    assert_eq!(d.max_company_id(), 2);
}

#[test]
fn a_position_no_record_names_keeps_a_placeholder() {
    let mut d = Data::new();
    d.load_vehicles(vec![record(2, "B", 1), record(2, "B2", 1)]);
    assert_eq!(d.vehicles.len(), 2);
    assert_eq!(d.vehicles[0].id, -1);
    // the later record with the same id wins
    assert_eq!(d.vehicles[1].license_plate, "B2");
    d.load_companies(vec![company(2, "B", 1), company(2, "C", 1)]);
    assert_eq!(d.companies[0].id, -1);
    assert_eq!(d.companies[1].name, "C");
}

#[test]
fn events_join_their_tours_and_set_the_next_request() {
    let mut d = Data::new();
    d.load_companies(vec![company(1, "A", 1)]);
    d.load_vehicles(vec![record(1, "A", 1), record(2, "B", 1)]);
    d.add_tour(2, 7, 1000, 2000);
    d.add_tour(1, 8, 3000, 4000);
    d.load_event(7, event(11, 7, 1100));
    d.load_event(8, event(12, 8, 3100));
    d.load_event(7, event(13, 7, 1900));
    assert_eq!(d.vehicles[1].tours[0].events.len(), 2);
    assert_eq!(d.vehicles[0].tours[0].events.len(), 1);
    d.finish_loading();
    assert_eq!(d.next_request_id, 13);
    assert_eq!(d.find_event(12).unwrap().tour, 8);
    assert!(d.find_event(14).is_none());
}

#[test]
fn availabilities_read_back_are_merged() {
    let mut d = Data::new();
    d.load_vehicles(vec![record(1, "A", 1)]);
    // windows read from the database keep their ids; touching ones become one
    for (id, start, end) in [(1, 1000, 2000), (2, 2000, 3000), (3, 5000, 6000)] {
        let iv = Interval::new(start, end);
        let plan = d.vehicles[0].plan_addition(&iv);
        assert_eq!(d.apply_availability_addition(1, &plan, id), Status::Created);
    }
    let a = &d.vehicles[0].availability;
    assert_eq!(a.len(), 2);
    assert_eq!((a[0].id, a[0].interval), (2, Interval::new(1000, 3000)));
    assert_eq!((a[1].id, a[1].interval), (3, Interval::new(5000, 6000)));
    assert_eq!(d.get_n_availabilities(), 2);
    assert!(!d.do_intervals_overlap());
}

#[test]
fn zones_with_the_same_id_keep_their_order() {
    let mut d = Data::new();
    d.load_zones(vec![zone(2, "first", true), zone(1, "one", true), zone(2, "second", true)]);
    let names: Vec<&str> = d.zones.iter().map(|z| z.name.as_str()).collect();
    assert_eq!(names, vec!["one", "first", "second"]);
    // loading again appends after what is there
    d.load_zones(vec![zone(0, "zero", true)]);
    assert_eq!(d.zones.len(), 4);
    assert_eq!(d.zones[3].name, "zero");
}

#[test]
fn windows_read_back_in_any_order_come_back() {
    let mut d = Data::new();
    d.load_vehicles(vec![record(1, "A", 1)]);
    // windows that lie apart are each added alone, in the order read
    for (id, start, end) in [(3, 5000, 6000), (1, 1000, 2000), (2, 2500, 3000)] {
        let iv = Interval::new(start, end);
        let plan = d.vehicles[0].plan_addition(&iv);
        assert_eq!(d.apply_availability_addition(1, &plan, id), Status::Created);
    }
    let a: Vec<(i32, Interval)> = d.vehicles[0].availability.iter().map(|a| (a.id, a.interval)).collect();
    assert_eq!(
        a,
        vec![(3, Interval::new(5000, 6000)), (1, Interval::new(1000, 2000)), (2, Interval::new(2500, 3000))]
    );
}

#[test]
fn zones_read_back_in_any_order_come_back() {
    let mut d = Data::new();
    d.load_zones(vec![zone(3, "three", true), zone(1, "one", true), zone(2, "two", true)]);
    let ids: Vec<i32> = d.zones.iter().map(|z| z.id).collect();
    assert_eq!(ids, vec![1, 2, 3]);
    let mut e = Data::new();
    e.load_zones(vec![zone(2, "two", true), zone(3, "three", true), zone(1, "one", true)]);
    assert!(d.same_content(&e));
}
