//! Fast approximate Gaussian blur of packed pixel buffers, built from
//! repeated separable box blurs with clamp-to-edge borders.
//!
//! `reshape` converts between flat bytes and fixed-size pixels, `boxblur`
//! holds the sliding-window passes and their model, and `gauss` runs a plan
//! of passes over a whole image.
pub mod boxblur;
pub mod gauss;
pub mod reshape;

pub use boxblur::{box_blur, box_blur_horz, box_blur_vert};
pub use gauss::{box_diameters, gaussian_blur_boxes, gaussian_blur_bytes_boxes, lower_box_width};
pub use reshape::{from_byte_slice, pixels_to_bytes, SliceSizeError};
