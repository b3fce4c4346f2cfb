//! Grid-cell coordinates with a floating origin.
//!
//! Every spatial entity is placed by a coarse integer grid cell plus a small
//! fixed-point offset inside that cell, counted in whole units. Each frame
//! runs three stages, in this order:
//!
//! 1. [`recenter_transform_on_grid`] moves root entities whose offset grew
//!    beyond the recentering distance to the nearest cell;
//! 2. [`update_global_from_grid`] expresses every root with a cell relative
//!    to the one entity marked as the floating origin;
//! 3. [`transform_propagate_system`] composes those results down the
//!    parent/child hierarchy.
//!
//! Change flags kept per component decide what each stage recomputes.

pub mod precision;
pub mod grid_cell;
pub mod translation;
pub mod settings;
pub mod world;
pub mod recenter;
pub mod origin;
pub mod propagate;

pub use grid_cell::GridCell;
pub use origin::{update_global_from_grid, OriginError};
pub use precision::GridPrecision;
pub use propagate::{transform_propagate_system, HierarchyError, Propagation};
pub use recenter::recenter_transform_on_grid;
pub use settings::{FloatingOriginSettings, SettingsError};
pub use translation::{Translation, WidePosition};
pub use world::World;
