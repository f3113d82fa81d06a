//! The rendered document: words, text components, images and their root.

pub mod anchors;
pub mod image;
pub mod root;
pub mod layout;
pub mod properties;
pub mod textcomponent;
pub mod word;
