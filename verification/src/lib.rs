pub mod atlas;
pub mod compose;
pub mod manifest;
pub mod packing;
pub mod primitive;
pub mod types;
