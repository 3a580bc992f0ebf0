//! Text filters for CSS values and markdown: px → rem, hex → oklch,
//! timestamp refresh, markdown link escaping and line sorting.
pub mod text;
pub mod patterns;
pub mod css;
pub mod values;
pub mod px;
pub mod hex;
pub mod number;
pub mod now;
pub mod mdlink;
pub mod links;
pub mod sort;
pub mod helpers;
pub mod apply;
