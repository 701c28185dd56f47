use mandart_engine::color::{
    band_index, channel_to_byte, color_grid, color_grid_cyclic, palette_pair, Banding, Hue, Rgb8,
};

const ONE: i64 = 1_000_000;

fn hue(r: i64, g: i64, b: i64) -> Hue {
    Hue { r, g, b }
}

fn rgb(r: u8, g: u8, b: u8) -> Rgb8 {
    Rgb8 { r, g, b }
}

#[test]
fn band_search_half_open() {
    let bounds = vec![0, 10 * ONE, 20 * ONE, 30 * ONE];
    assert_eq!(band_index(&bounds, 0), Some(0));
    assert_eq!(band_index(&bounds, 10 * ONE - 1), Some(0));
    assert_eq!(band_index(&bounds, 10 * ONE), Some(1));
    assert_eq!(band_index(&bounds, 29 * ONE), Some(2));
    assert_eq!(band_index(&bounds, 30 * ONE), None);
    assert_eq!(band_index(&bounds, -1), None);
    assert_eq!(band_index(&vec![], 0), None);
}

#[test]
fn band_search_skips_zero_width_band() {
    let bounds = vec![0, 0, 10 * ONE];
    assert_eq!(band_index(&bounds, 0), Some(1));
}

#[test]
fn palette_wraps_cyclically() {
    assert_eq!(palette_pair(4, 3), (1, 2));
    assert_eq!(palette_pair(5, 3), (2, 0));
    assert_eq!(palette_pair(0, 1), (0, 0));
}

#[test]
fn band_four_of_six_uses_second_and_third_entries() {
    let palette = vec![hue(ONE, 0, 0), hue(0, ONE, 0), hue(0, 0, ONE)];
    let bounds: Vec<i64> = (0..=6).map(|i| i * 10 * ONE).collect();
    let banding = Banding { iter_max: 60 * ONE, bounds, palette, interior: rgb(0, 0, 0) };
    assert_eq!(banding.color_of_value(40 * ONE), rgb(0, 255, 0));
    assert_eq!(banding.color_of_value(45 * ONE), rgb(0, 128, 128));
}

#[test]
fn channel_rounding() {
    assert_eq!(channel_to_byte(0), 0);
    assert_eq!(channel_to_byte(ONE), 255);
    assert_eq!(channel_to_byte(ONE / 2), 128);
    assert_eq!(channel_to_byte(2_000), 1);
    assert_eq!(channel_to_byte(1_000), 0);
    assert_eq!(channel_to_byte(-3), 0);
    assert_eq!(channel_to_byte(2 * ONE), 255);
}

#[test]
fn blend_halfway_and_interior() {
    let banding = Banding {
        iter_max: 50 * ONE,
        bounds: vec![0, 2 * ONE],
        palette: vec![hue(ONE, 0, 0), hue(0, 0, ONE)],
        interior: rgb(9, 8, 7),
    };
    assert_eq!(banding.color_of_value(0), rgb(255, 0, 0));
    assert_eq!(banding.color_of_value(ONE), rgb(128, 0, 128));
    assert_eq!(banding.color_of_value(ONE / 2), rgb(191, 0, 64));
    assert_eq!(banding.color_of_value(50 * ONE), rgb(9, 8, 7));
    assert_eq!(banding.color_of_value(70 * ONE), rgb(9, 8, 7));
    assert_eq!(banding.color_of_value(3 * ONE), rgb(0, 0, 0));
    assert_eq!(banding.color_of_value(-1), rgb(0, 0, 0));
}

#[test]
fn all_interior_window_colors_interior() {
    let iter_max = 50 * ONE;
    let field: Vec<Vec<i64>> = vec![vec![iter_max; 4]; 4];
    let banding = Banding {
        iter_max,
        bounds: vec![0, 10 * ONE, 50 * ONE],
        palette: vec![hue(ONE, ONE, 0)],
        interior: rgb(0, 0, 0),
    };
    let colors = color_grid(&field, &banding);
    assert_eq!(colors.len(), 4);
    let mut count = 0;
    for row in &colors {
        assert_eq!(row.len(), 4);
        for c in row {
            assert_eq!(*c, rgb(0, 0, 0));
            count += 1;
        }
    }
    assert_eq!(count, 16);
}

#[test]
fn color_grid_keeps_shape_and_values() {
    let banding = Banding {
        iter_max: 10 * ONE,
        bounds: vec![0, 10 * ONE],
        palette: vec![hue(0, 0, 0), hue(ONE, ONE, ONE)],
        interior: rgb(1, 2, 3),
    };
    let field = vec![vec![0, 5 * ONE, 10 * ONE], vec![ONE, 2 * ONE, 3 * ONE]];
    let colors = color_grid(&field, &banding);
    assert_eq!(colors.len(), 2);
    assert_eq!(colors[0], vec![rgb(0, 0, 0), rgb(128, 128, 128), rgb(1, 2, 3)]);
    assert_eq!(colors[1][2], rgb(77, 77, 77));
}

#[test]
fn cyclic_mode_uses_whole_part() {
    let palette = vec![hue(ONE, 0, 0), hue(0, ONE, 0), hue(0, 0, ONE)];
    let field = vec![vec![2 * ONE + 700_000, -5, 4 * ONE, 0]];
    let colors = color_grid_cyclic(&field, &palette);
    assert_eq!(
        colors,
        vec![vec![rgb(0, 0, 255), rgb(255, 0, 0), rgb(0, 255, 0), rgb(255, 0, 0)]]
    );
}

#[test]
fn blend_uses_exact_fraction() {
    let banding = Banding {
        iter_max: 50 * ONE,
        bounds: vec![0, 10 * ONE],
        palette: vec![hue(0, 0, 0), hue(ONE, ONE, ONE)],
        interior: rgb(9, 8, 7),
    };
    // 255 * 0.0019608 = 0.500004, which rounds to 1.
    assert_eq!(banding.color_of_value(19_608), rgb(1, 1, 1));
    // 255 * 0.0019607 = 0.4999785, which rounds to 0.
    assert_eq!(banding.color_of_value(19_607), rgb(0, 0, 0));
}

#[test]
fn blend_uses_exact_fraction_on_wrapped_band() {
    let banding = Banding {
        iter_max: 50 * ONE,
        bounds: vec![0, 10 * ONE, 20 * ONE, 30 * ONE],
        palette: vec![hue(0, 0, 0), hue(ONE, ONE, ONE)],
        interior: rgb(9, 8, 7),
    };
    assert_eq!(banding.color_of_value(20 * ONE + 19_608), rgb(1, 1, 1));
    assert_eq!(banding.color_of_value(10 * ONE + 19_608), rgb(254, 254, 254));
}
