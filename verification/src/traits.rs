//! What callers may ask of tours, vehicles, users, companies and availability windows.

use vstd::prelude::*;
use crate::interval::Interval;
use crate::records::{CompanyData, TourData, UserData, VehicleData};

verus! {

pub trait PrimaTour {
    fn get_vehicle_license_plate(&self) -> &str;
}

pub trait PrimaVehicle {
    fn get_id(&self) -> i32;

    fn get_license_plate(&self) -> &str;

    fn get_company_id(&self) -> i32;

    fn get_tours(&self) -> Vec<&TourData>;
}

pub trait PrimaUser {
    fn get_id(&self) -> i32;

    fn is_driver(&self) -> bool;

    fn is_disponent(&self) -> bool;

    fn is_admin(&self) -> bool;

    fn get_company_id(&self) -> Option<bool>;
}

pub trait PrimaVehicleSpecifics {
    fn get_seats(&self) -> i32;

    fn get_wheelchairs(&self) -> i32;

    fn get_storage_space(&self) -> i32;
}

pub trait PrimaCompany {
    fn get_id(&self) -> i32;

    fn get_name(&self) -> &str;
}

pub trait PrimaAvailability {
    fn get_interval(&self) -> &Interval;
}

impl PrimaTour for TourData {
    /// Not known yet: the empty text.
    fn get_vehicle_license_plate(&self) -> (r: &str)
        ensures
            r@ == Seq::<char>::empty(),
    {
        proof {
            reveal_strlit("");
        }
        ""
    }
}

impl PrimaVehicle for VehicleData {
    fn get_id(&self) -> (r: i32)
        ensures
            r == self.id,
    {
        self.id
    }

    fn get_license_plate(&self) -> (r: &str)
        ensures
            r@ == self.license_plate@,
    {
        self.license_plate.as_str()
    }

    fn get_company_id(&self) -> (r: i32)
        ensures
            r == self.company,
    {
        self.company
    }

    /// The vehicle's tours, in order.
    fn get_tours(&self) -> (r: Vec<&TourData>)
        ensures
            crate::data::derefs(r@) == self.tours@,
    {
        crate::data::refs(&self.tours)
    }
}

impl PrimaUser for UserData {
    fn get_id(&self) -> (r: i32)
        ensures
            r == self.id,
    {
        self.id
    }

    fn is_driver(&self) -> (r: bool)
        ensures
            r == self.is_driver,
    {
        self.is_driver
    }

    /// Not kept yet: always false.
    fn is_disponent(&self) -> (r: bool)
        ensures
            !r,
    {
        false
    }

    fn is_admin(&self) -> (r: bool)
        ensures
            r == self.is_admin,
    {
        self.is_admin
    }

    /// Not kept yet: always `None`.
    fn get_company_id(&self) -> (r: Option<bool>)
        ensures
            r is None,
    {
        None
    }
}

impl PrimaCompany for CompanyData {
    fn get_id(&self) -> (r: i32)
        ensures
            r == self.id,
    {
        self.id
    }

    fn get_name(&self) -> (r: &str)
        ensures
            r@ == self.name@,
    {
        self.name.as_str()
    }
}

} // verus!
