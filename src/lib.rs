//! Annotation records for aerial image sequences, their markup codec, and the
//! overlay of detection boxes on frame images.

pub mod digits;
pub mod model;
pub mod markup;
pub mod fields;
pub mod text;
pub mod serde_zero_one_bool;
pub mod serde_utc;
pub mod codec;
pub mod frame;
pub mod dataset;
pub mod render;

pub use dataset::{decode, encode};
pub use fields::DecodeError;
pub use markup::Tag;
pub use model::{
    Box, Color, Dataset, Decimal, Depth, Frame, Object, ObjectList, Representation,
    RepresentationType, Timestamp,
};
pub use render::{rectangle, render, Image, Rect, RenderError};
