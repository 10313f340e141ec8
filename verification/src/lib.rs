//! A software rasterizer built on exact arithmetic: a rational scalar type,
//! small vector/matrix algebra with Gauss-Jordan inversion, line and
//! barycentric triangle rasterization with a depth buffer, a mesh-text
//! parser, and a projection pipeline driver.

pub mod colors;
pub mod draw;
pub mod image;
pub mod line;
pub mod rat;
pub mod triangle;
pub mod types;
pub mod vector;
pub mod matrix;
pub mod obj;
