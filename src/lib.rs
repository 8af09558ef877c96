//! Locates, in a video's auto-generated captions, the moment each numbered
//! question of its description is spoken.
pub mod align;
pub mod captions;
pub mod description;
pub mod normalize;
pub mod text;
