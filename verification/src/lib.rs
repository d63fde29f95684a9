//! In-memory scheduling data of an on-demand public transport service:
//! companies, vehicles with their availability windows, tours and events,
//! together with the decisions taken when the data is read or changed.

pub mod interval;
pub mod status;
pub mod records;
pub mod availability;
pub mod clock;
pub mod data;
pub mod content;
pub mod queries;
pub mod changes;
pub mod loading;
pub mod routing;
pub mod traits;
pub mod units;
