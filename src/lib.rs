//! A follow-the-leader serpent game core on a fixed-point plane.
//!
//! Coordinates and lengths are integers in millionths of a screen unit.
//! A body is a chain of anchors; each anchor is pulled back onto the circle
//! of its parent's radius, keeping its previous heading.

pub mod geometry;
pub mod anchor;
pub mod random;
pub mod snake;
pub mod game;
