//! Clustered lighting and shadow views, computed exactly on a grid of whole
//! numbers.
//!
//! Once a frame the pipeline finds which lights reach which part of a
//! camera's view and which meshes cast shadows into which light's view, and
//! packs the result into the buffers that the shading stage reads.
//!
//! The stages, in the order of a frame:
//!
//! 1. [`cluster`] cuts a camera's view into a grid of cells: tiles of the
//!    screen times slices of depth, which [`depth`] places.
//! 2. [`assign`] lists, for every cell, the lights whose sphere of
//!    influence shares a point with the cell; [`exact`] holds the test that
//!    decides this without rounding, and [`reach`] states what the lists
//!    guarantee.
//! 3. [`cascade`] and [`frusta`] build the light views: the cascades of
//!    directional lights, the six faces of point lights and the cones of
//!    spot lights.
//! 4. [`visibility`] finds the meshes that each light view has to draw.
//! 5. [`extract`] copies the frame's state from the simulation world into
//!    the render world.
//! 6. [`light`] selects the lights of highest priority and [`gpu`] packs
//!    them and the lists of the cells into buffers of a fixed layout.
//! 7. [`light_view`] keeps the set of light views in step with the lights
//!    and lays out the passes of the shadow pass.
//!
//! [`schedule`] declares which of these has to run after which, and
//! [`plugin`] says what an application has to set up to run them.
//!
//! Positions and distances are whole numbers of a unit that the caller
//! chooses, a millimetre, say. [`geometry`] holds the points, spheres,
//! boxes and planes on that grid, with tests that never round; [`camera`]
//! maps view space to the screen, and [`planes`], [`nearest`], [`math`] and
//! [`wide`] hold the facts about screen edges and whole-number arithmetic
//! that the proofs rest on.

pub mod assign;
pub mod camera;
pub mod cascade;
pub mod cluster;
pub mod depth;
pub mod exact;
pub mod extract;
pub mod frusta;
pub mod geometry;
pub mod gpu;
pub mod graph;
pub mod light;
pub mod light_view;
pub mod math;
pub mod nearest;
pub mod planes;
pub mod plugin;
pub mod reach;
pub mod schedule;
pub mod visibility;
pub mod wide;
