//! A verified 2D collision subsystem for an entity-component game library.
//!
//! The library tracks movable bodies (a position plus one or more collision
//! shapes), detects pairwise overlaps with the separating axis theorem,
//! accelerates broad-phase queries with a growable spatial hash, and can
//! resolve penetration by pushing the moving body out along the minimum
//! translation vector.
//!
//! All geometry is carried in exact integer world units (`i64`), so every
//! routine is deterministic and its result is pinned down by its contract.
//! Where continuous geometry would call for a square root (the length of an
//! axis, the distance between two circle centres) the library uses the
//! integer square root, rounding toward zero; each contract states the
//! rounded value exactly.

pub mod entity;
pub mod num;
pub mod components;
pub mod physics;
pub mod hexmap;
