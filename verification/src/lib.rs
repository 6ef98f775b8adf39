//! Separable convolution and range rescaling over sample grids.
//!
//! A grid is filtered by applying a one-dimensional kernel along its rows
//! and then along its columns, in place, with reflection at the borders. A
//! grid is rescaled by finding the range of its samples and mapping that
//! range onto a target interval.
//!
//! Samples are opaque here. The caller supplies their arithmetic as an
//! [`Arithmetic`]: zero, one, the four basic operations and the order. The
//! contracts say which operations are applied to which samples, in which
//! order, and where the results are written.

pub mod arithmetic;
pub mod buffer;
pub mod convolve;
pub mod iter;
pub mod kernel;
pub mod mapper;
pub mod rescale;

pub use arithmetic::Arithmetic;
pub use buffer::Buffer;
pub use convolve::Convolution;
pub use iter::ImageIterator;
pub use kernel::SeparableKernel;
pub use rescale::{Rescale, RescaleRange};
