//! Home-energy telemetry between data sources, a publish/subscribe bus
//! and a small status display: a typed topic binding with an exact wire
//! codec, the meter and price acquisition pipelines, the bounded queue
//! decoupling network polling from handling, the periodic trigger, and
//! the display formatting policy. Network, clock and process concerns
//! live with the caller; every decision on data is specified and
//! verified here.
use vstd::prelude::*;

pub mod awtrix3;
pub mod codec;
pub mod display;
pub mod dto;
pub mod format;
pub mod gql;
pub mod json;
pub mod meter;
pub mod queue;
pub mod schedule;
pub mod tibber;
pub mod topic;
pub mod topics;

verus! {

} // verus!
