//! Rasterisation of point clouds on fixed-point scalars.
//!
//! Every coordinate, elevation and value is an integer count of thousandths
//! of the unit of measure, and every quotient is rounded down to such a
//! count. The crate offers two ways from a point cloud to a regular grid:
//! per-cell statistics ([`binning`]) and sampling of a triangulated surface.
//!
//! The triangulation itself is not part of the crate. [`builder`] holds what
//! the sweep over the points decides beside it: which edges are frozen
//! before a point is looked at, whether the point goes in, and what follows
//! from that. [`sampler`] gives each cell of the raster its value from where
//! its sample position was found in the finished triangulation.
//!
//! [`extent`] reads an extent from a text and [`driver`] picks the raster
//! driver for a file name; [`order`], [`scalar`] and [`text`] hold what the
//! others share.

pub mod binning;
pub mod builder;
pub mod driver;
pub mod error;
pub mod extent;
pub mod order;
pub mod point;
pub mod sampler;
pub mod scalar;
pub mod text;
