//! Data model and export pipeline for a video frame-labeling tool.
//!
//! A project maps each video to an ordered list of labeled frame ranges.
//! The export engine turns those ranges into a multi-hot CSV manifest plus
//! one image task per labeled frame, reporting fractional progress as it
//! goes; the manifest codec persists the whole project and restores it
//! exactly.

pub mod annotation;
pub mod export;
pub mod manifest;
pub mod marking;
pub mod playback;
pub mod project;
pub mod store;
pub mod text;
