//! Document model and text layout for a terminal markdown viewer.
//!
//! The library holds the rendered document tree (`ComponentRoot`), the
//! mapping between rendered caret positions and source byte spans, and the
//! character-wrapping text box used for editing comments.

pub mod util;
pub mod metrics;
pub mod parser;
pub mod strings;
pub mod nodes;
pub mod search;
pub mod comments;
pub mod boxes;
