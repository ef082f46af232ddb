//! A type-erased, contiguous, growable column of fixed-size elements.
//!
//! The element type is known only through its [`ItemLayout`] (a size and an
//! alignment), and every element is handled as an opaque run of bytes.
pub mod column;
pub mod layout;
pub mod model;

pub use column::Column;
pub use layout::ItemLayout;
pub use model::ColumnView;
