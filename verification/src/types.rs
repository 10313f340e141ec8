//! Plain geometric carrier types shared across the crate.

use vstd::prelude::*;

verus! {

/// A 2-D integer screen point.
#[derive(Debug, Clone)]
pub struct Point {
    pub x: isize,
    pub y: isize,
}

/// A coordinate triple over any scalar type.
#[derive(Debug, Clone)]
pub struct Vector3<T> {
    pub x: T,
    pub y: T,
    pub z: T,
}

/// Three 1-based indices into a mesh's vertex list, naming a triangle.
#[derive(Debug, Clone)]
pub struct Face {
    pub one: usize,
    pub two: usize,
    pub three: usize,
}

} // verus!
