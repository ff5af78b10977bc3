//! Style resolution and block layout for a tree of styled document elements.
//!
//! `css` and `dom` hold the inputs (stylesheets and element trees), `style`
//! resolves the cascade into a tree of styled nodes, and `layout` turns that
//! tree into positioned, sized boxes.
pub mod css;
pub mod dom;
pub mod style;
pub mod layout;
