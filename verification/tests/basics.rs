use prima::clock::{is_valid, is_valid_at};
use prima::interval::Interval;
use prima::records::{CompanyData, Coordinates, VehicleData};
use prima::status::Status;
use prima::units::{id_to_vec_pos, meter_to_km, seconds_to_minutes};

fn ts(y: i32, mo: u32, d: u32, h: u32, mi: u32) -> i64 {
    chrono::NaiveDate::from_ymd_opt(y, mo, d)
        .unwrap()
        .and_hms_opt(h, mi, 0)
        .unwrap()
        .and_utc()
        .timestamp()
}

#[test]
fn windows_overlap_touch_and_contain() {
    let a = Interval::new(10, 20);
    assert!(a.overlaps(&Interval::new(19, 30)));
    assert!(Interval::new(19, 30).overlaps(&a));
    assert!(!a.overlaps(&Interval::new(20, 30)));
    assert!(a.touches(&Interval::new(20, 30)));
    assert!(a.touches(&Interval::new(0, 10)));
    assert!(!a.touches(&Interval::new(21, 30)));
    assert!(a.contains(&Interval::new(10, 20)));
    assert!(a.contains(&Interval::new(12, 18)));
    assert!(!a.contains(&Interval::new(9, 18)));
    assert!(a.overlaps(&Interval::new(12, 18)));
}

#[test]
fn windows_merge_cut_and_split() {
    let mut a = Interval::new(10, 20);
    a.merge(&Interval::new(15, 30));
    assert_eq!(a, Interval::new(10, 30));
    a.merge(&Interval::new(0, 5));
    assert_eq!(a, Interval::new(0, 30));

    let mut b = Interval::new(10, 20);
    b.cut(&Interval::new(5, 12));
    assert_eq!(b, Interval::new(12, 20));
    let mut c = Interval::new(10, 20);
    c.cut(&Interval::new(15, 25));
    assert_eq!(c, Interval::new(10, 15));

    let (left, right) = Interval::new(10, 40).split(&Interval::new(20, 30));
    assert_eq!(left, Interval::new(10, 20));
    assert_eq!(right, Interval::new(30, 40));
    assert!(!left.overlaps(&Interval::new(20, 30)));
    assert!(!right.overlaps(&Interval::new(20, 30)));
}

#[test]
fn unit_conversions() {
    assert_eq!(seconds_to_minutes(125), 2);
    assert_eq!(seconds_to_minutes(59), 0);
    assert_eq!(meter_to_km(2500), 2);
    assert_eq!(meter_to_km(999), 0);
    assert_eq!(id_to_vec_pos(1), 0);
    assert_eq!(id_to_vec_pos(3), 2);
}

#[test]
fn status_codes() {
    let all = [
        (Status::Success, 200),
        (Status::Created, 201),
        (Status::Accepted, 202),
        (Status::NoContent, 204),
        (Status::BadRequest, 400),
        (Status::NotFound, 404),
        (Status::NotAcceptable, 406),
        (Status::Conflict, 409),
        (Status::ExpectationFailed, 417),
        (Status::InternalServerError, 500),
    ];
    for (status, code) in all {
        assert_eq!(status.code(), code);
    }
}

#[test]
fn bookable_windows_end_by_the_year_10000() {
    let now = ts(2030, 1, 1, 0, 0);
    let horizon = ts(10000, 1, 1, 0, 0);
    assert!(is_valid_at(&Interval::new(now, horizon), now));
    assert!(!is_valid_at(&Interval::new(now, horizon + 1), now));
    assert!(!is_valid_at(&Interval::new(now - 1, horizon), now));
    assert!(is_valid_at(&Interval::new(ts(5000, 1, 1, 0, 0), ts(5000, 1, 2, 0, 0)), now));
    // the horizon is midnight at the start of the year 10000
    assert_eq!(horizon, 253402300800);
    assert!(is_valid_at(&Interval::new(now, 253402300800), now));
    assert!(!is_valid_at(&Interval::new(now, 253402300801), now));
}

#[test]
fn bookable_now() {
    assert!(is_valid(&Interval::new(ts(5000, 1, 1, 0, 0), ts(5000, 1, 2, 0, 0))));
    assert!(!is_valid(&Interval::new(ts(2023, 1, 1, 0, 0), ts(2023, 1, 2, 0, 0))));
    assert!(!is_valid(&Interval::new(ts(5000, 1, 1, 0, 0), ts(100000, 1, 1, 0, 0))));
}

#[test]
fn placeholders() {
    let v = VehicleData::new();
    assert_eq!((v.id, v.company, v.seats, v.wheelchair_capacity, v.storage_space), (-1, -1, -1, -1, -1));
    assert!(v.license_plate.is_empty() && v.availability.is_empty() && v.tours.is_empty());
    assert!(v.fulfills_requirements(3, 0, 0));
    assert!(!v.fulfills_requirements(4, 0, 0));
    let c = CompanyData::new();
    assert_eq!((c.id, c.zone), (-1, -1));
    assert!(c.name.is_empty());
    assert_eq!(c.central_coordinates, Coordinates { x_bits: 0.0f64.to_bits(), y_bits: 0.0f64.to_bits() });
    let copy = c.copied();
    assert_eq!((copy.id, copy.zone, copy.name.as_str()), (-1, -1, ""));
}
