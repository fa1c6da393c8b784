//! Verified core of a base16 palette generator: the decoding and
//! resampling of the source image (through `image`), the bookkeeping of
//! hue-locked K-means (which points are fixed to which cluster, which
//! clusters are frozen), the tallies that score a clustering, the grouping
//! of clusters into hue zones, and the hex/JSON rendering of a palette.
//! The floating-point colour arithmetic lives with the caller.

pub mod cluster;
pub mod color;
pub mod loader;
pub mod palette;
pub mod zones;
