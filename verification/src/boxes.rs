//! Widgets that draw into a terminal buffer.

pub mod textbox;
