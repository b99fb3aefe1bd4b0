//! What the renderer shares that is exact: text metrics and PNG encoding.

pub mod font;
pub mod png;
