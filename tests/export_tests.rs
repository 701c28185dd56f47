use mandart_engine::color::Rgb8;
use mandart_engine::export::{encode_image_base64, raster_rgb};
use std::io::Cursor;

fn to_rgb8(c: [f64; 3]) -> Rgb8 {
    Rgb8 {
        r: (c[0] * 255.0).round() as u8,
        g: (c[1] * 255.0).round() as u8,
        b: (c[2] * 255.0).round() as u8,
    }
}

fn png_bytes(image_grid: &Vec<Vec<[f64; 3]>>) -> Result<Vec<u8>, String> {
    let colors: Vec<Vec<Rgb8>> = image_grid
        .iter()
        .map(|row| row.iter().map(|c| to_rgb8(*c)).collect())
        .collect();
    let width = colors.len();
    let height = colors[0].len();
    let raster = raster_rgb(&colors, width, height);
    let img = image::RgbImage::from_raw(width as u32, height as u32, raster)
        .ok_or_else(|| "raster size mismatch".to_string())?;
    let mut out = Cursor::new(Vec::new());
    img.write_to(&mut out, image::ImageFormat::Png).map_err(|e| e.to_string())?;
    Ok(out.into_inner())
}

fn save_and_read_image_grid() {
    // Create a simple 2x2 image grid with RGB values in [0.0, 1.0] range
    let image_grid: Vec<Vec<[f64; 3]>> = vec![
        vec![[0.0, 1.0, 0.0], [1.0, 1.0, 0.0]], // Green, Yellow
        vec![[1.0, 0.0, 0.0], [0.0, 0.0, 1.0]], // Red, Blue
    ];

    let saved = png_bytes(&image_grid);
    assert!(saved.is_ok(), "Failed to save image");

    let bytes = saved.unwrap();
    assert!(!bytes.is_empty(), "PNG file was not created");

    let encoded_image = encode_image_base64(&bytes);
    assert!(!encoded_image.is_empty(), "Base64 image string is empty");
    assert_eq!(encoded_image.len(), 4 * ((bytes.len() + 2) / 3));
}

#[test]
fn file_tests_test_save_and_read_image_grid() {
    save_and_read_image_grid();
}

#[test]
fn image_tests_test_save_and_read_image_grid() {
    save_and_read_image_grid();
}

#[test]
fn base64_known_values() {
    assert_eq!(encode_image_base64(&vec![1, 2, 3]), "AQID");
    assert_eq!(encode_image_base64(&vec![0xff]), "/w==");
    assert_eq!(encode_image_base64(&vec![0x4d, 0x61]), "TWE=");
    assert_eq!(encode_image_base64(&vec![]), "");
}

#[test]
fn raster_is_row_major_by_y() {
    let red = Rgb8 { r: 255, g: 0, b: 0 };
    let green = Rgb8 { r: 0, g: 255, b: 0 };
    let blue = Rgb8 { r: 0, g: 0, b: 255 };
    let white = Rgb8 { r: 255, g: 255, b: 255 };
    // colors[x][y]
    let colors = vec![vec![red, green], vec![blue, white]];
    let raster = raster_rgb(&colors, 2, 2);
    assert_eq!(
        raster,
        vec![255, 0, 0, 0, 0, 255, 0, 255, 0, 255, 255, 255]
    );
    assert_eq!(raster_rgb(&vec![], 0, 5), Vec::<u8>::new());
}
