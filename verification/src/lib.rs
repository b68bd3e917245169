//! Verified core of an AI image-enhancement pipeline: raster geometry, tiled
//! model inference, face-region blending and the bookkeeping around uploads.
pub mod raster;
pub mod tensor;
pub mod models;
pub mod upscaler;
pub mod segmentation;
pub mod blending;
pub mod pipeline;
pub mod api;
