//! A manually managed 2D numeric buffer ("channel"), the storage primitive of
//! a multi-plane raster image ("layer").
//!
//! A [`channel::Channel`] owns a contiguous, zero-initialized buffer of
//! `width * height` cells together with a signed lock word encoding
//! "free / N readers / 1 writer".  Access goes through guards: any number of
//! [`channel::ReadGuard`]s may be outstanding at once, or exactly one
//! [`channel::WritePermit`], which can in turn be split into pairwise disjoint
//! rectangular [`chunk::Chunk`]s for independent mutation.  A
//! [`layer::Layer`] aggregates same-sized channels under unique string names.

pub mod channel;
pub mod chunk;
pub mod error;
pub mod layer;
pub mod lock;
