//! Fair assignment of delivery orders to riders, and event-driven updates
//! that keep the assignment consistent: the initial round-robin build never
//! leaves one rider more than one order ahead of another, a rejected order
//! moves to the least-loaded other rider, and no event loses or duplicates
//! an order.
#![verifier::loop_isolation(false)]

pub mod builder;
pub mod events;
pub mod plan;
pub mod resolve;
