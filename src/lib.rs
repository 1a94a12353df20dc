//! Content-discovery scanner core: candidate path generation (character
//! enumeration and dictionary templates), request planning with retries,
//! result filtering, and the lifecycle record that lets the pipeline's stages
//! detect completion.
pub mod text;
pub mod args;
pub mod dict;
pub mod enumerate;
pub mod context;
pub mod engine;
