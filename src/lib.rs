//! A raster-image container codec: RGBA pixel buffers, a frequency-ranked
//! palette quantizer, and a byte framing with a zlib-compressed payload.
pub mod codec;
pub mod pixel;
pub mod quantize;
pub mod timing;

pub use codec::{from_parts, DecodeError};
pub use pixel::{Image, Rgba};
pub use quantize::{closest_color, color_distance, quantize, ComperssionAmnt};
pub use timing::TimingDebugger;
