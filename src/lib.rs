//! Gap-and-fit scheduling: recurring calendar blocks are expanded, the free
//! time between them is computed, and pending tasks are packed into it.

pub mod model;
pub mod recurrence;
pub mod order;
pub mod gaps;
pub mod fitter;
pub mod driver;
pub mod text;
pub mod civil;
pub mod wire;
pub mod calendar;
pub mod config;
pub mod view;
pub mod tasks;
pub mod availability;
