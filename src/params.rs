//! Defaults and range checks for the whole-number render parameters. A
//! missing value takes its default; a value out of range is refused.
use vstd::prelude::*;

verus! {

/// Image width and height where a document gives none.
pub const DEFAULT_IMAGE_EXTENT: u32 = 500;

/// Exponent of the iterated map where a document gives none.
pub const DEFAULT_POWER: i32 = 2;

/// Number of colour bands where a document gives none.
pub const DEFAULT_BLOCKS: u32 = 10;

/// An image width or height: positive and within `u32`.
pub fn image_extent_or_default(value: Option<u64>) -> (r: Option<u32>)
    ensures
        match value {
            None => r == Some(DEFAULT_IMAGE_EXTENT),
            Some(n) => if 1 <= n <= u32::MAX {
                r == Some(n as u32)
            } else {
                r is None
            },
        },
{
    match value {
        None => Some(DEFAULT_IMAGE_EXTENT),
        Some(n) => if 1 <= n && n <= u32::MAX as u64 {
            Some(n as u32)
        } else {
            None
        },
    }
}

/// The exponent of the iterated map: a positive integer within `i32`.
pub fn power_or_default(value: Option<i64>) -> (r: Option<i32>)
    ensures
        match value {
            None => r == Some(DEFAULT_POWER),
            Some(n) => if 1 <= n <= i32::MAX {
                r == Some(n as i32)
            } else {
                r is None
            },
        },
{
    match value {
        None => Some(DEFAULT_POWER),
        Some(n) => if 1 <= n && n <= i32::MAX as i64 {
            Some(n as i32)
        } else {
            None
        },
    }
}

/// The number of colour bands: positive and within `u32`.
pub fn blocks_or_default(value: Option<u64>) -> (r: Option<u32>)
    ensures
        match value {
            None => r == Some(DEFAULT_BLOCKS),
            Some(n) => if 1 <= n <= u32::MAX {
                r == Some(n as u32)
            } else {
                r is None
            },
        },
{
    match value {
        None => Some(DEFAULT_BLOCKS),
        Some(n) => if 1 <= n && n <= u32::MAX as u64 {
            Some(n as u32)
        } else {
            None
        },
    }
}

} // verus!
