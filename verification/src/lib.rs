//! Single-pass online clustering over an abstract point type.
//!
//! Points come one at a time. Each joins the nearest class found so far, if
//! that class is nearer than a limit, and founds a class of its own
//! otherwise; afterwards classes that lie near each other can be folded into
//! one.
//!
//! The library never looks inside a point. Whoever calls it hands in the
//! geometry as functions: one that measures the distance between two points
//! and ones that compute a mean. A distance is an ordered key, a `u32` for
//! which a smaller key means a shorter distance; the bit pattern of an
//! IEEE-754 single that is not negative is such a key. What the contracts say
//! of a result they say in terms of what those functions ensure.
pub mod choice;
pub mod class;
pub mod classifer;
pub mod record;
