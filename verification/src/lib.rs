//! Recognition of TopCode circular fiducial markers in raster images.
//!
//! A TopCode is a bullseye-shaped tag: a white center disk, a black ring, a
//! white ring, and an outer data ring split into 13 equal angular sectors,
//! each black or white. The 13 sector bits, canonicalized under rotation,
//! identify the marker. The scanner binarizes an image with a one-pass
//! Wellner adaptive threshold, flags candidate centers, and decodes each
//! candidate into a code identifier, a sub-pixel center, a unit size and an
//! orientation.

pub mod candidate;
pub mod code;
pub mod scanner;
pub mod topcode;
