use mandart_engine::params::{
    blocks_or_default, image_extent_or_default, power_or_default, DEFAULT_BLOCKS,
    DEFAULT_IMAGE_EXTENT, DEFAULT_POWER,
};

#[test]
fn missing_values_take_defaults() {
    assert_eq!(image_extent_or_default(None), Some(500));
    assert_eq!(power_or_default(None), Some(2));
    assert_eq!(blocks_or_default(None), Some(10));
    assert_eq!((DEFAULT_IMAGE_EXTENT, DEFAULT_POWER, DEFAULT_BLOCKS), (500, 2, 10));
}

#[test]
fn image_extent_range() {
    assert_eq!(image_extent_or_default(Some(0)), None);
    assert_eq!(image_extent_or_default(Some(1)), Some(1));
    assert_eq!(image_extent_or_default(Some(4)), Some(4));
    assert_eq!(image_extent_or_default(Some(u32::MAX as u64)), Some(u32::MAX));
    assert_eq!(image_extent_or_default(Some(u32::MAX as u64 + 1)), None);
}

#[test]
fn power_range() {
    assert_eq!(power_or_default(Some(3)), Some(3));
    assert_eq!(power_or_default(Some(0)), None);
    assert_eq!(power_or_default(Some(-2)), None);
    assert_eq!(power_or_default(Some(i32::MAX as i64 + 1)), None);
}

#[test]
fn blocks_range() {
    assert_eq!(blocks_or_default(Some(6)), Some(6));
    assert_eq!(blocks_or_default(Some(0)), None);
    assert_eq!(blocks_or_default(Some(1 << 40)), None);
}
