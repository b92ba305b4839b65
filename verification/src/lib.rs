//! Conversion between the Gregorian calendar and the traditional Chinese
//! lunar calendar for the lunar years 1900 to 2099.

pub mod error;
pub mod lunar;
pub mod solar;
pub mod table;
pub mod year;

pub use crate::error::Error;
pub use crate::lunar::LunarDate;
pub use crate::solar::SolarDate;
