use prima::changes::is_user_role_valid;
use prima::data::Data;
use prima::records::{Coordinates, UserData};
use prima::status::Status;

fn user(id: i32, name: &str, email: &str) -> UserData {
    UserData {
        id,
        name: name.to_string(),
        is_driver: true,
        is_admin: false,
        email: email.to_string(),
        password: Some(String::new()),
        salt: String::new(),
        o_auth_id: Some(String::new()),
        o_auth_provider: Some(String::new()),
    }
}

/// Creates a user the way the service does once the database has stored it under `id`.
fn create_user(
    d: &mut Data,
    id: i32,
    name: &str,
    is_driver: bool,
    is_disponent: bool,
    company: Option<i32>,
    is_admin: bool,
    email: &str,
) -> Status {
    match d.plan_create_user(&name.to_string(), is_driver, is_disponent, company, is_admin, &email.to_string()) {
        Err(e) => e,
        Ok(()) => {
            let mut u = user(id, name, email);
            u.is_driver = is_driver;
            u.is_admin = is_admin;
            d.upsert_user(u)
        }
    }
}

fn create_zone(d: &mut Data, id: i32, name: &str, area_is_valid: bool) -> Status {
    match d.plan_create_zone(&name.to_string(), area_is_valid) {
        Err(e) => e,
        Ok(()) => d.add_zone(id, name.to_string(), "area".to_string()),
    }
}

fn create_company(d: &mut Data, id: i32, name: &str, zone: i32) -> Status {
    match d.plan_create_company(&name.to_string(), zone) {
        Err(e) => e,
        Ok(()) => d.add_company(
            id,
            name.to_string(),
            zone,
            Coordinates { x_bits: 1.0f64.to_bits(), y_bits: 1.0f64.to_bits() },
        ),
    }
}

fn create_vehicle(d: &mut Data, id: i32, plate: &str, company: i32) -> Status {
    match d.plan_create_vehicle(&plate.to_string(), company) {
        Err(e) => e,
        Ok(v) => d.add_vehicle(id, v),
    }
}

fn setup() -> Data {
    let mut d = Data::new();
    assert_eq!(create_zone(&mut d, 1, "Bautzen Ost", true), Status::Created);
    assert_eq!(create_zone(&mut d, 2, "Görlitz", true), Status::Created);
    assert_eq!(create_company(&mut d, 1, "Taxi-Unternehmen Bautzen-1", 1), Status::Created);
    assert_eq!(create_vehicle(&mut d, 1, "TUB1-1", 1), Status::Created);
    assert_eq!(
        create_user(&mut d, 1, "TestDriver1", true, false, Some(1), false, "test@aol.com"),
        Status::Created
    );
    d
}

#[test]
fn taken_keys_are_conflicts() {
    let mut d = setup();
    let n_users = d.users.len();
    // a user with an existing name
    assert_eq!(
        create_user(&mut d, 2, "TestDriver1", true, false, Some(1), false, "test@gmail.com"),
        Status::Conflict
    );
    assert_eq!(d.users.len(), n_users);
    // a user with an existing email address
    assert_eq!(
        create_user(&mut d, 2, "TestDriver2", true, false, Some(1), false, "test@aol.com"),
        Status::Conflict
    );
    assert_eq!(d.users.len(), n_users);
    // a user with a new name and a new email address
    assert_eq!(
        create_user(&mut d, 2, "TestDriver2", true, true, Some(1), false, "test@gmail.com"),
        Status::Created
    );
    assert_eq!(d.users.len(), n_users + 1);

    // a zone with an existing name
    let n_zones = d.zones.len();
    assert_eq!(create_zone(&mut d, 3, "Görlitz", true), Status::Conflict);
    assert_eq!(d.zones.len(), n_zones);

    // a company with an existing name
    let n_companies = d.companies.len();
    assert_eq!(create_company(&mut d, 2, "Taxi-Unternehmen Bautzen-1", 1), Status::Conflict);
    assert_eq!(d.companies.len(), n_companies);

    // a vehicle with an existing license plate
    let n_vehicles = d.vehicles.len();
    assert_eq!(create_vehicle(&mut d, 2, "TUB1-1", 1), Status::Conflict);
    assert_eq!(d.vehicles.len(), n_vehicles);
}

#[test]
fn missing_references_are_failed_expectations() {
    let mut d = setup();
    let n_zones = d.zones.len();
    let n_companies = d.companies.len();
    let n_vehicles = d.vehicles.len();
    // a company in a zone that does not exist
    assert_eq!(create_company(&mut d, 2, "some new name", 1 + n_zones as i32), Status::ExpectationFailed);
    assert_eq!(d.companies.len(), n_companies);
    // a company in an existing zone
    assert_eq!(create_company(&mut d, 2, "some new name", n_zones as i32), Status::Created);
    assert_eq!(d.companies.len(), n_companies + 1);
    let n_companies = d.companies.len();
    // a vehicle of a company that does not exist
    assert_eq!(
        create_vehicle(&mut d, 2, "some new license plate", 1 + n_companies as i32),
        Status::ExpectationFailed
    );
    assert_eq!(d.vehicles.len(), n_vehicles);
    // a vehicle of an existing company
    assert_eq!(create_vehicle(&mut d, 2, "some new license plate", n_companies as i32), Status::Created);
    assert_eq!(d.vehicles.len(), n_vehicles + 1);
    let v = &d.vehicles[1];
    assert_eq!((v.seats, v.wheelchair_capacity, v.storage_space), (3, 0, 0));
    // negative references and id 0 never exist
    assert_eq!(create_vehicle(&mut d, 3, "another plate", -1), Status::ExpectationFailed);
    assert_eq!(create_vehicle(&mut d, 3, "another plate", 0), Status::ExpectationFailed);
    assert_eq!(create_company(&mut d, 3, "another name", -1), Status::ExpectationFailed);
    assert_eq!(create_company(&mut d, 3, "another name", 0), Status::ExpectationFailed);
    assert_eq!(d.vehicles.len(), n_vehicles + 1);
}

#[test]
fn an_area_that_cannot_be_read_is_a_bad_request() {
    let mut d = setup();
    assert_eq!(create_zone(&mut d, 3, "some new zone name", false), Status::BadRequest);
    assert_eq!(d.zones.len(), 2);
    // a taken name is reported first
    assert_eq!(create_zone(&mut d, 3, "Görlitz", false), Status::Conflict);
}

#[test]
fn roles_must_fit_the_company() {
    // a user of no company neither drives nor dispatches
    assert!(is_user_role_valid(false, false, false, None));
    assert!(is_user_role_valid(false, false, true, None));
    assert!(!is_user_role_valid(true, false, false, None));
    assert!(!is_user_role_valid(false, true, false, None));
    // a user of a company drives or dispatches, and is no admin
    assert!(is_user_role_valid(true, false, false, Some(1)));
    assert!(is_user_role_valid(false, true, false, Some(1)));
    assert!(is_user_role_valid(true, true, false, Some(1)));
    assert!(!is_user_role_valid(false, false, false, Some(1)));
    assert!(!is_user_role_valid(true, false, true, Some(1)));
    assert!(!is_user_role_valid(false, false, true, Some(1)));

    let mut d = setup();
    assert_eq!(
        create_user(&mut d, 2, "Lonely", true, false, None, false, "lonely@web.de"),
        Status::BadRequest
    );
    // a taken name is reported before a bad role
    assert_eq!(
        create_user(&mut d, 2, "TestDriver1", true, false, None, false, "lonely@web.de"),
        Status::Conflict
    );
}

#[test]
fn a_user_with_a_known_id_is_replaced() {
    let mut d = setup();
    assert_eq!(d.upsert_user(user(1, "Renamed", "renamed@web.de")), Status::Created);
    assert_eq!(d.users.len(), 1);
    assert_eq!(d.users[&1].name, "Renamed");
    assert_eq!(d.max_user_id(), 1);
}

#[test]
fn clearing_forgets_all_but_addresses() {
    let mut d = setup();
    let id = d.get_or_create_address("02625", "Bautzen", "Karolinenplatz", "5");
    assert_eq!(id, 1);
    d.next_request_id = 7;
    d.clear();
    assert!(d.users.is_empty() && d.zones.is_empty() && d.companies.is_empty() && d.vehicles.is_empty());
    assert_eq!(d.addresses.len(), 1);
    assert_eq!(d.next_request_id, 1);
}

#[test]
fn addresses_are_found_again() {
    let mut d = Data::new();
    let a = d.get_or_create_address("02625", "Bautzen", "Karolinenplatz", "5");
    let b = d.get_or_create_address("02826", "Görlitz", "Lichtwiesenweg", "3");
    assert_eq!((a, b), (1, 2));
    // asking again gives the same id and adds nothing
    assert_eq!(d.get_or_create_address("02625", "Bautzen", "Karolinenplatz", "5"), 1);
    assert_eq!(d.addresses.len(), 2);
    // one differing part makes another address
    assert_eq!(d.get_or_create_address("02625", "Bautzen", "Karolinenplatz", "6"), 3);
    assert_eq!(d.addresses.len(), 3);
}

#[test]
fn same_content_ignores_the_order_of_users() {
    let mut a = Data::new();
    let mut b = Data::new();
    a.upsert_user(user(1, "TestDriver1", "test@aol.com"));
    a.upsert_user(user(2, "TestDriver2", "test@gmail.com"));
    b.upsert_user(user(2, "TestDriver2", "test@gmail.com"));
    b.upsert_user(user(1, "TestDriver1", "test@aol.com"));
    assert!(a.same_content(&b));
    b.upsert_user(user(1, "TestDriver1", "other@aol.com"));
    assert!(!a.same_content(&b));
    // addresses are not compared
    b.upsert_user(user(1, "TestDriver1", "test@aol.com"));
    b.get_or_create_address("02625", "Bautzen", "Karolinenplatz", "5");
    assert!(a.same_content(&b));
}

#[test]
fn a_company_needs_a_zone_with_its_id() {
    let mut d = Data::new();
    d.add_zone(7, "Zittau".to_string(), "area".to_string());
    // the only zone has id 7: zone 1 does not exist, zone 7 does
    assert_eq!(create_company(&mut d, 1, "A", 1), Status::ExpectationFailed);
    assert_eq!(create_company(&mut d, 1, "A", 7), Status::Created);
}
