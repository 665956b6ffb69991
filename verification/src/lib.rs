//! Verified core of a watermark remover: detection, masking, checking and
//! bookkeeping, without any file, network or model access.

pub mod accuracy;
pub mod double;
pub mod number;
pub mod grid;
pub mod components;
pub mod text;
pub mod boxes;
pub mod raster;
pub mod detect;
pub mod morph;
pub mod codec;
pub mod template;
pub mod stats;
pub mod planes;
pub mod fill;
pub mod scaling;
pub mod refine;
pub mod masks;
pub mod verify;
pub mod lama;
pub mod dbnet;
pub mod names;
pub mod photo_meta;
pub mod fetch;
pub mod pipeline;
pub mod android;
pub mod i18n;
pub mod menu;
pub mod review;
pub mod watermark_profiles;
pub mod placing;
pub mod outline;
pub mod shift;
pub mod learning;
pub mod batch;
pub mod discover;
pub mod correlate;
pub mod locating;
pub mod blur;
pub mod inverse;
pub mod cli;
pub mod desktop;
