//! Arrival-time prediction for a delay/disruption-tolerant messaging client.
//!
//! A contact plan lists directed communication windows between named nodes.
//! `plan` reads it from text, `registry` maps node names to dense IDs,
//! `router` finds the earliest causal route of a bundle over the windows, and
//! `service` ties them together: it resolves names, converts between
//! wall-clock and plan-relative time, and reports errors. `display` holds the
//! small presentation helpers of the client.
//!
//! Transit is modelled as instantaneous once a window is open: a bundle that
//! is ready at `t` and takes a contact `[start, end)` arrives at
//! `max(t, start)`, provided that is before `end`. Among routes that deliver
//! equally early, a route query returns one with the fewest hops, and among
//! those one whose next hop has the lowest node ID.

pub mod display;
pub mod plan;
pub mod registry;
pub mod router;
pub mod service;
