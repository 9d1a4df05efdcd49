//! An escape-time fractal renderer's engine: it splits an image into one tile
//! per worker, renders each tile through a gradient colour mapper with
//! cooperative cancellation, and gathers the finished tiles into the image.
pub mod colour;
pub mod options;
pub mod partition;
pub mod pixels;
pub mod section;

pub use crate::colour::{colour_bands, pixel_colour, IN_SET};
pub use crate::options::{
    check_parameters, colour_scheme, parse_rgb, parse_size, ConfigError, ImageSize, ParseError,
};
pub use crate::partition::{grid, partition, Tile};
pub use crate::pixels::PixelBuffer;
pub use crate::section::{gen, receive_imgbuf, ImgSec};
