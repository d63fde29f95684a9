use prima::availability::{AvailabilityAddition, AvailabilityRemoval};
use prima::data::Data;
use prima::interval::Interval;
use prima::records::Coordinates;
use prima::status::Status;

fn ts(y: i32, mo: u32, d: u32, h: u32, mi: u32) -> i64 {
    chrono::NaiveDate::from_ymd_opt(y, mo, d)
        .unwrap()
        .and_hms_opt(h, mi, 0)
        .unwrap()
        .and_utc()
        .timestamp()
}

const HOUR: i64 = 3600;
const MINUTE: i64 = 60;
const WEEK: i64 = 7 * 24 * HOUR;

/// Adds a window the way the service does once the database has answered: the database
/// hands out ids from `next_id` on.
fn create_availability(d: &mut Data, start: i64, end: i64, vehicle: i32, next_id: &mut i32) -> Status {
    match d.plan_create_availability(start, end, vehicle) {
        Err(e) => e,
        Ok(plan) => {
            let id = *next_id;
            if let AvailabilityAddition::Merge { .. } = plan {
                *next_id += 1;
            }
            d.apply_availability_addition(vehicle, &plan, id)
        }
    }
}

fn remove_availability(d: &mut Data, start: i64, end: i64, vehicle: i32, next_id: &mut i32) -> Status {
    match d.plan_remove_availability(start, end, vehicle) {
        Err(e) => e,
        Ok(plan) => {
            let AvailabilityRemoval { split, .. } = &plan;
            let split = *split;
            d.apply_availability_removal(vehicle, &plan);
            if let Some((left, right)) = split {
                create_availability(d, left.start_time, left.end_time, vehicle, next_id);
                create_availability(d, right.start_time, right.end_time, vehicle, next_id);
            }
            Status::Success
        }
    }
}

/// One zone, one company, two vehicles; vehicle 1 is available from March to June of the
/// year 5000.
fn setup(next_id: &mut i32) -> Data {
    let mut d = Data::new();
    assert_eq!(d.plan_create_zone(&"Bautzen Ost".to_string(), true), Ok(()));
    d.add_zone(1, "Bautzen Ost".to_string(), "area".to_string());
    assert_eq!(d.plan_create_company(&"Taxi-Unternehmen Bautzen-1".to_string(), 1), Ok(()));
    d.add_company(1, "Taxi-Unternehmen Bautzen-1".to_string(), 1, Coordinates { x_bits: 0, y_bits: 0 });
    for (id, plate) in [(1, "TUB1-1"), (2, "TUB1-2")] {
        let v = d.plan_create_vehicle(&plate.to_string(), 1).ok().unwrap();
        assert_eq!(d.add_vehicle(id, v), Status::Created);
    }
    assert_eq!(
        create_availability(&mut d, ts(5000, 3, 1, 0, 0), ts(5000, 6, 1, 0, 0), 1, next_id),
        Status::Created
    );
    d
}

#[test]
fn availability_windows_merge_split_and_vanish() {
    let mut next_id = 1;
    let mut d = setup(&mut next_id);
    let n_vehicles = d.vehicles.len();
    let base_time = ts(5000, 4, 15, 9, 10);
    let in_2_hours = base_time + 2 * HOUR;
    let in_3_hours = base_time + 3 * HOUR;

    assert_eq!(d.vehicles[0].availability.len(), 1);
    // remove the window set up above
    remove_availability(&mut d, ts(5000, 1, 1, 0, 0), ts(5005, 1, 1, 0, 0), 1, &mut next_id);
    assert_eq!(d.vehicles[0].availability.len(), 0);
    // add non-touching
    create_availability(&mut d, in_2_hours, in_3_hours, 1, &mut next_id);
    assert_eq!(d.vehicles[0].availability.len(), 1);
    // add touching
    create_availability(&mut d, in_2_hours + HOUR, in_3_hours + HOUR, 1, &mut next_id);
    assert_eq!(d.vehicles[0].availability.len(), 1);
    assert_eq!(d.vehicles[0].availability[0].interval, Interval::new(in_2_hours, in_3_hours + HOUR));
    // add containing/contained (equal)
    create_availability(&mut d, in_2_hours, in_3_hours, 1, &mut next_id);
    assert_eq!(d.vehicles[0].availability.len(), 1);

    // remove non-touching
    assert_eq!(
        remove_availability(&mut d, base_time + WEEK, base_time + 2 * WEEK, 1, &mut next_id),
        Status::NoContent
    );
    assert_eq!(d.vehicles[0].availability.len(), 1);
    // remove split
    remove_availability(&mut d, in_2_hours + 5 * MINUTE, in_3_hours - 5 * MINUTE, 1, &mut next_id);
    assert_eq!(d.vehicles[0].availability.len(), 2);
    // remove overlapping
    remove_availability(&mut d, in_2_hours - 90 * MINUTE, in_3_hours - 100 * MINUTE, 1, &mut next_id);
    assert_eq!(d.vehicles[0].availability.len(), 2);
    // remove containing
    remove_availability(&mut d, in_2_hours - MINUTE, in_3_hours + 3 * HOUR, 1, &mut next_id);
    assert_eq!(d.vehicles[0].availability.len(), 0);
    assert!(!d.do_intervals_overlap());

    // insert availability with non-existing vehicle
    let n_availabilities = d.get_n_availabilities();
    assert_eq!(
        create_availability(&mut d, base_time, base_time + HOUR, 1 + n_vehicles as i32, &mut next_id),
        Status::ExpectationFailed
    );
    assert_eq!(d.get_n_availabilities(), n_availabilities);
    // insert availability with existing vehicle
    assert_eq!(
        create_availability(&mut d, base_time, base_time + HOUR, n_vehicles as i32, &mut next_id),
        Status::Created
    );
    assert_eq!(d.get_n_availabilities(), n_availabilities + 1);
    let n_availabilities = d.get_n_availabilities();

    // a window overlapping nothing is answered with no content
    assert_eq!(
        remove_availability(&mut d, ts(5025, 4, 15, 11, 10), ts(5026, 4, 15, 10, 0), 1, &mut next_id),
        Status::NoContent
    );
    assert_eq!(d.get_n_availabilities(), n_availabilities);
}

#[test]
fn split_leaves_the_two_outer_parts() {
    let mut next_id = 1;
    let mut d = setup(&mut next_id);
    let start = ts(5000, 3, 1, 0, 0);
    let end = ts(5000, 6, 1, 0, 0);
    let cut_start = ts(5000, 4, 1, 0, 0);
    let cut_end = ts(5000, 5, 1, 0, 0);
    assert_eq!(remove_availability(&mut d, cut_start, cut_end, 1, &mut next_id), Status::Success);
    let mut windows: Vec<Interval> = d.vehicles[0].availability.iter().map(|a| a.interval).collect();
    windows.sort_by_key(|w| w.start_time);
    assert_eq!(windows, vec![Interval::new(start, cut_start), Interval::new(cut_end, end)]);
    assert!(!d.do_intervals_overlap());
}

#[test]
fn cutting_an_overlapping_window_keeps_the_rest() {
    let mut next_id = 1;
    let mut d = setup(&mut next_id);
    let end = ts(5000, 6, 1, 0, 0);
    let cut_end = ts(5000, 4, 1, 0, 0);
    assert_eq!(
        remove_availability(&mut d, ts(5000, 2, 1, 0, 0), cut_end, 1, &mut next_id),
        Status::Success
    );
    assert_eq!(d.vehicles[0].availability.len(), 1);
    assert_eq!(d.vehicles[0].availability[0].interval, Interval::new(cut_end, end));
}

#[test]
fn adding_a_window_that_holds_another_replaces_it() {
    let mut next_id = 1;
    let mut d = setup(&mut next_id);
    let plan = d
        .plan_create_availability(ts(5000, 2, 1, 0, 0), ts(5000, 7, 1, 0, 0), 1)
        .ok()
        .unwrap();
    match &plan {
        AvailabilityAddition::Merge { remove_ids, merged } => {
            assert!(remove_ids.contains(&1));
            assert_eq!(*merged, Interval::new(ts(5000, 2, 1, 0, 0), ts(5000, 7, 1, 0, 0)));
        }
        AvailabilityAddition::Covered => panic!("a wider window is not covered"),
    }
    assert_eq!(d.apply_availability_addition(1, &plan, 7), Status::Created);
    assert_eq!(d.vehicles[0].availability.len(), 1);
    assert_eq!(d.vehicles[0].availability[0].id, 7);
}

#[test]
fn windows_touching_on_both_sides_become_one() {
    let mut next_id = 1;
    let mut d = setup(&mut next_id);
    let a = ts(5001, 1, 1, 8, 0);
    let b = ts(5001, 1, 1, 10, 0);
    let c = ts(5001, 1, 1, 12, 0);
    let e = ts(5001, 1, 1, 14, 0);
    create_availability(&mut d, a, b, 2, &mut next_id);
    create_availability(&mut d, c, e, 2, &mut next_id);
    assert_eq!(d.vehicles[1].availability.len(), 2);
    create_availability(&mut d, b, c, 2, &mut next_id);
    assert_eq!(d.vehicles[1].availability.len(), 1);
    assert_eq!(d.vehicles[1].availability[0].interval, Interval::new(a, e));
}

#[test]
fn an_id_stored_twice_is_an_internal_error() {
    let mut next_id = 1;
    let mut d = setup(&mut next_id);
    let existing = d.vehicles[0].availability[0].id;
    let iv = Interval::new(ts(5002, 1, 1, 0, 0), ts(5002, 1, 2, 0, 0));
    assert_eq!(d.insert_availability_entry(1, existing, iv), Status::InternalServerError);
    assert_eq!(d.vehicles[0].availability.len(), 1);
    assert_eq!(d.vehicles[0].availability[0].interval, iv);
    assert_eq!(d.insert_availability_entry(1, existing + 100, iv), Status::Created);
    assert_eq!(d.vehicles[0].availability.len(), 2);
}

#[test]
fn overlapping_windows_are_detected() {
    let mut next_id = 1;
    let mut d = setup(&mut next_id);
    assert!(!d.do_intervals_overlap());
    let iv = Interval::new(ts(5000, 4, 1, 0, 0), ts(5000, 8, 1, 0, 0));
    assert_eq!(d.insert_availability_entry(1, 99, iv), Status::Created);
    assert!(d.do_intervals_overlap());
}

#[test]
fn equal_windows_of_two_entries_overlap() {
    let mut next_id = 1;
    let mut d = setup(&mut next_id);
    let iv = Interval::new(ts(5001, 1, 1, 0, 0), ts(5001, 1, 2, 0, 0));
    assert_eq!(d.insert_availability_entry(2, 50, iv), Status::Created);
    assert!(!d.do_intervals_overlap());
    assert_eq!(d.insert_availability_entry(2, 51, iv), Status::Created);
    assert!(d.do_intervals_overlap());
}

#[test]
fn a_recorded_removal_keeps_both_parts() {
    let mut next_id = 1;
    let mut d = setup(&mut next_id);
    let now = ts(2030, 1, 1, 0, 0);
    let cut_start = ts(5000, 4, 1, 0, 0);
    let cut_end = ts(5000, 5, 1, 0, 0);
    let plan = d.plan_remove_availability_at(cut_start, cut_end, 1, now).ok().unwrap();
    d.record_removal(1, &plan, now, (20, 21));
    let a = &d.vehicles[0].availability;
    assert_eq!(a.len(), 2);
    assert_eq!((a[0].id, a[0].interval), (20, Interval::new(ts(5000, 3, 1, 0, 0), cut_start)));
    assert_eq!((a[1].id, a[1].interval), (21, Interval::new(cut_end, ts(5000, 6, 1, 0, 0))));
    // a part that starts before now cannot be booked and is not added back
    let later = ts(5000, 3, 15, 0, 0);
    let plan = d.plan_remove_availability_at(ts(5000, 3, 20, 0, 0), ts(5000, 3, 25, 0, 0), 1, later).ok().unwrap();
    d.record_removal(1, &plan, later, (22, 23));
    let ids: Vec<i32> = d.vehicles[0].availability.iter().map(|a| a.id).collect();
    assert_eq!(ids, vec![21, 23]);
    // windows kept apart across calls: no vehicle has two overlapping entries
    assert!(!d.do_intervals_overlap());
}

#[test]
fn windows_that_cannot_be_booked_are_refused() {
    let mut next_id = 1;
    let mut d = setup(&mut next_id);
    let d_copy = d.clone();
    let base_time = ts(5000, 1, 1, 10, 0);
    let n_availabilities = d.get_n_availabilities();
    // starts before now
    assert_eq!(
        create_availability(&mut d, chrono::NaiveDateTime::MIN.and_utc().timestamp(), base_time + HOUR, 1, &mut next_id),
        Status::NotAcceptable
    );
    assert_eq!(d.get_n_availabilities(), n_availabilities);
    // ends after the year 100000
    assert_eq!(
        create_availability(&mut d, base_time, ts(100000, 4, 15, 10, 0), 1, &mut next_id),
        Status::NotAcceptable
    );
    assert_eq!(d.get_n_availabilities(), n_availabilities);
    // starts in 2023
    assert_eq!(
        remove_availability(&mut d, ts(2023, 4, 15, 11, 10), ts(2024, 4, 15, 10, 0), 1, &mut next_id),
        Status::NotAcceptable
    );
    // ends after the year 100000
    assert_eq!(
        remove_availability(&mut d, ts(2024, 4, 15, 11, 10), ts(100000, 4, 15, 10, 0), 1, &mut next_id),
        Status::NotAcceptable
    );
    assert_eq!(d.get_n_availabilities(), n_availabilities);
    // an unknown vehicle is not found when a window is taken away
    assert_eq!(
        remove_availability(&mut d, base_time, base_time + HOUR, 50, &mut next_id),
        Status::NotFound
    );
    // nothing changed
    assert!(d.same_content(&d_copy));
}

#[test]
fn same_content_ignores_the_order_of_windows() {
    let mut next_id = 1;
    let mut d = setup(&mut next_id);
    let a = Interval::new(ts(5001, 1, 1, 0, 0), ts(5001, 1, 2, 0, 0));
    let b = Interval::new(ts(5002, 1, 1, 0, 0), ts(5002, 1, 2, 0, 0));
    let mut e = d.clone();
    assert!(d.same_content(&e));
    d.insert_availability_entry(2, 10, a);
    d.insert_availability_entry(2, 11, b);
    assert!(!d.same_content(&e));
    e.insert_availability_entry(2, 11, b);
    e.insert_availability_entry(2, 10, a);
    assert!(d.same_content(&e));
    e.next_request_id += 1;
    assert!(!d.same_content(&e));
    e.next_request_id -= 1;
    e.vehicles[1].seats = 4;
    assert!(!d.same_content(&e));
}

#[test]
fn taking_away_a_whole_window_leaves_two_empty_parts() {
    let mut next_id = 1;
    let mut d = setup(&mut next_id);
    let now = ts(2030, 1, 1, 0, 0);
    let (start, end) = (ts(5000, 3, 1, 0, 0), ts(5000, 6, 1, 0, 0));
    let plan = d.plan_remove_availability_at(start, end, 1, now).ok().unwrap();
    d.record_removal(1, &plan, now, (30, 31));
    let a = &d.vehicles[0].availability;
    assert_eq!(a.len(), 2);
    assert_eq!((a[0].id, a[0].interval), (30, Interval::new(start, start)));
    assert_eq!((a[1].id, a[1].interval), (31, Interval::new(end, end)));
    // the windows still lie apart
    assert!(!d.do_intervals_overlap());
}

#[test]
fn taking_away_an_empty_window_inside_a_window_joins_its_parts() {
    let mut next_id = 1;
    let mut d = setup(&mut next_id);
    let now = ts(2030, 1, 1, 0, 0);
    let t = ts(5000, 4, 1, 0, 0);
    let plan = d.plan_remove_availability_at(t, t, 1, now).ok().unwrap();
    assert!(plan.split.is_some());
    d.record_removal(1, &plan, now, (40, 41));
    // the second part touches the first and the two are stored as one, under the second id
    let a = &d.vehicles[0].availability;
    assert_eq!(a.len(), 1);
    assert_eq!((a[0].id, a[0].interval), (41, Interval::new(ts(5000, 3, 1, 0, 0), ts(5000, 6, 1, 0, 0))));
}
