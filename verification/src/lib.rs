//! Conversion library for total-station survey data.
//!
//! Field data moves between three on-disk formats: a fixed-width
//! instrument export (two incompatible column layouts), a delimited
//! coordinate text format, and a CAD drawing document.  Every format is
//! lowered to and raised from one canonical point model, a sequence of
//! named, coded coordinates.
//!
//! Coordinates are carried as fixed-point integers: one unit of the
//! source data (one meter) is 1_000_000 ticks, so a tick is a
//! micrometer.  The thin shell that performs file input and output, and
//! that converts between this fixed-point model and the CAD codec's
//! floating-point values, lives outside the library.

pub mod convert;
pub mod format;
pub mod geometry;
pub mod numeric;
pub mod text;
