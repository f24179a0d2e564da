//! Escape-time rendering of the Mandelbrot set into 8-bit grayscale buffers.
//!
//! The verified part of the library is everything that does not need
//! floating-point arithmetic: the grayscale encoding of escape counts, the
//! escape-time loop over an abstract orbit, and the row-major and banded
//! renderers, which are generic over a per-pixel classifier.
pub mod escape;
pub mod grid;
pub mod parallel;
pub mod shade;
