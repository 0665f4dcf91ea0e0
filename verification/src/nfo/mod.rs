//! Kodi NFO shapes, their conversion to and from the domain model, and
//! the authorship marker our NFOs carry.

pub mod kodi;
pub mod marker;
