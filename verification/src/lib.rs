//! Watershed delineation over HFX drainage fabrics.
//!
//! A request names a position. [`request`] reads it, [`delineate`] directs the
//! engine from the search for an outlet to a result, and [`report`] puts together
//! what the result is reported with: the watershed and its boundary
//! ([`geometry`], [`measure`]), the channel network and the reach that leaves it
//! ([`network`], [`outlet`], [`truncate`], [`clip`]), the stream orders
//! ([`strahler`]) and the shapes that are drawn ([`geojson`]).
//!
//! Numbers are held as bit patterns ([`scalar`]). The library compares them, and
//! leaves computing with them to functions that its callers supply.

pub mod clip;
pub mod delineate;
pub mod fabric;
pub mod geojson;
pub mod geometry;
pub mod measure;
pub mod nearest;
pub mod network;
pub mod outlet;
pub mod report;
pub mod request;
pub mod scalar;
pub mod staged;
pub mod strahler;
pub mod text;
pub mod truncate;
